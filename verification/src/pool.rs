//! The record of one pool and the rules that depend on nothing else.

use vstd::prelude::*;
use crate::arith::{clamped_add, clamped_mul, clamped_sub, saturating_mul};
use crate::types::{AccountId, Balance, BlockNumber, Error, Movement, PoolId, TokenId};

verus! {

/// The terms of a pool and what has been swapped through it so far.
#[derive(Clone, Debug, PartialEq, Eq, Default)]
pub struct PoolDetails {
    /// A label; no meaning is attached to it.
    pub name: Vec<u8>,
    /// Who escrowed `total0` and receives what buyers pay.
    pub creator: AccountId,
    /// The escrowed asset.
    pub token0: TokenId,
    /// The asset buyers pay with.
    pub token1: TokenId,
    /// The escrow: how much of `token0` is for sale.
    pub total0: Balance,
    /// How much of `token1` the pool raises if it sells out.
    pub total1: Balance,
    /// How much of `token0` has been handed to buyers.
    pub swapped0: Balance,
    /// How much of `token1` buyers have paid.
    pub swapped1: Balance,
    /// For how many blocks the pool stays open.
    pub duration: BlockNumber,
    /// The block at which the pool was created.
    pub start_at: BlockNumber,
}

/// A pool as a mathematical value.
pub struct PoolView {
    pub name: Seq<u8>,
    pub creator: AccountId,
    pub token0: TokenId,
    pub token1: TokenId,
    pub total0: nat,
    pub total1: nat,
    pub swapped0: nat,
    pub swapped1: nat,
    pub duration: nat,
    pub start_at: nat,
}

impl View for PoolDetails {
    type V = PoolView;

    open spec fn view(&self) -> PoolView {
        PoolView {
            name: self.name@,
            creator: self.creator,
            token0: self.token0,
            token1: self.token1,
            total0: self.total0 as nat,
            total1: self.total1 as nat,
            swapped0: self.swapped0 as nat,
            swapped1: self.swapped1 as nat,
            duration: self.duration as nat,
            start_at: self.start_at as nat,
        }
    }
}

/// The block at which a pool created at `start_at` for `duration` blocks
/// closes: their sum, clamped at the largest block number.
pub open spec fn end_block(start_at: nat, duration: nat) -> nat {
    if start_at + duration > BlockNumber::MAX {
        BlockNumber::MAX as nat
    } else {
        start_at + duration
    }
}

/// How much of the escrowed asset `amount1` buys at the rate
/// `total0 / total1`: the product `amount1 * total0`, clamped at the largest
/// balance, divided by `total1` and rounded down.
pub open spec fn quote(total0: nat, total1: nat, amount1: nat) -> nat
    recommends
        total1 > 0,
{
    (clamped_mul(amount1 as int, total0 as int) / (total1 as int)) as nat
}

/// A buyer's record after one more swap: what was received and what was
/// paid grow by the swap's amounts, each clamped at the largest balance.
pub open spec fn accumulated(record: (nat, nat), amount0: nat, amount1: nat) -> (nat, nat) {
    (
        clamped_add(record.0 as int, amount0 as int) as nat,
        clamped_add(record.1 as int, amount1 as int) as nat,
    )
}

/// The identifier after `id`: one more, except that the largest identifier
/// is followed by itself.
pub open spec fn next_id(id: PoolId) -> PoolId {
    if id == PoolId::MAX {
        id
    } else {
        (id + 1) as PoolId
    }
}

/// Adds one swap to a buyer's record.
pub fn accumulate(record: (Balance, Balance), amount0: Balance, amount1: Balance) -> (sum: (
    Balance,
    Balance,
))
    ensures
        (sum.0 as nat, sum.1 as nat) == accumulated(
            (record.0 as nat, record.1 as nat),
            amount0 as nat,
            amount1 as nat,
        ),
{
    (record.0.saturating_add(amount0), record.1.saturating_add(amount1))
}

/// The identifier that is handed out after `id`.
pub fn id_after(id: PoolId) -> (next: PoolId)
    ensures
        next == next_id(id),
{
    id.saturating_add(1)
}

impl PoolView {
    /// The first block at which the pool no longer trades.
    pub open spec fn end_at(self) -> nat {
        end_block(self.start_at, self.duration)
    }

    /// Whether swaps are still accepted at block `now`.
    pub open spec fn is_open(self, now: nat) -> bool {
        now < self.end_at()
    }

    /// What `amount1` of the paying asset buys from this pool.
    pub open spec fn quote(self, amount1: nat) -> nat
        recommends
            self.total1 > 0,
    {
        quote(self.total0, self.total1, amount1)
    }

    /// The pool after a swap of `amount1` for `amount0`: both cumulative
    /// amounts grow, clamped at the largest balance; the terms stay.
    pub open spec fn after_swap(self, amount0: nat, amount1: nat) -> PoolView {
        PoolView {
            swapped0: clamped_add(self.swapped0 as int, amount0 as int) as nat,
            swapped1: clamped_add(self.swapped1 as int, amount1 as int) as nat,
            ..self
        }
    }

    /// How a payment of `amount1` at block `now` ends for this pool alone:
    /// `PoolExpired` from the end block on, `DivisionByZero` where the rate
    /// has a zero denominator, otherwise the pool after the swap and the
    /// amount bought.
    pub open spec fn try_swap(self, amount1: nat, now: nat) -> Result<(PoolView, nat), Error> {
        if !self.is_open(now) {
            Err(Error::PoolExpired)
        } else if self.total1 == 0 {
            Err(Error::DivisionByZero)
        } else {
            Ok((self.after_swap(self.quote(amount1), amount1), self.quote(amount1)))
        }
    }

    /// The part of the escrow that was not sold: `total0 - swapped0`, or zero
    /// where more was swapped than escrowed.
    pub open spec fn unswapped0(self) -> nat {
        clamped_sub(self.total0 as int, self.swapped0 as int) as nat
    }

    /// What creating the pool asks of the ledger: the creator reserves the
    /// escrow.
    pub open spec fn escrow(self) -> Movement {
        Movement::Reserve { token: self.token0, who: self.creator, amount: self.total0 as Balance }
    }

    /// What a swap asks of the ledger, in order: `amount0` of the escrowed
    /// asset leaves the creator's reserve, goes from the creator to the
    /// buyer, and `amount1` of the paying asset goes from the buyer to the
    /// creator.
    pub open spec fn payment(self, buyer: AccountId, amount0: Balance, amount1: Balance) -> (
        Movement,
        Movement,
        Movement,
    ) {
        (
            Movement::Unreserve { token: self.token0, who: self.creator, amount: amount0 },
            Movement::Transfer {
                token: self.token0,
                from: self.creator,
                to: buyer,
                amount: amount0,
            },
            Movement::Transfer {
                token: self.token1,
                from: buyer,
                to: self.creator,
                amount: amount1,
            },
        )
    }

    /// What closing the pool asks of the ledger: what was not sold leaves
    /// the creator's reserve. A pool that sold out asks for nothing.
    pub open spec fn payout(self) -> Option<Movement> {
        if self.unswapped0() == 0 {
            None
        } else {
            Some(
                Movement::Unreserve {
                    token: self.token0,
                    who: self.creator,
                    amount: self.unswapped0() as Balance,
                },
            )
        }
    }
}

/// A quote never gives more than the rate: `quote * total1 <= amount1 *
/// total0`. So a payment of at most `total1` buys at most `total0`.
pub proof fn lemma_quote_within_rate(total0: nat, total1: nat, amount1: nat)
    requires
        total1 > 0,
    ensures
        quote(total0, total1, amount1) * total1 <= amount1 * total0,
        amount1 <= total1 ==> quote(total0, total1, amount1) <= total0,
{
    let product = clamped_mul(amount1 as int, total0 as int);
    let bought = product / (total1 as int);
    assert(0 <= amount1 * total0) by (nonlinear_arith);
    assert(0 <= bought && bought * total1 <= product) by (nonlinear_arith)
        requires
            total1 > 0,
            product >= 0,
            bought == product / (total1 as int),
    ;
    if amount1 <= total1 {
        assert(bought <= total0) by (nonlinear_arith)
            requires
                bought * total1 <= amount1 * total0,
                amount1 <= total1,
                total1 > 0,
                bought >= 0,
        ;
    }
}

/// The pricing formula: where the product `amount1 * total0` fits in a
/// balance, a payment of `amount1` buys exactly `amount1 * total0 / total1`,
/// rounded down.
pub proof fn lemma_quote_exact(total0: nat, total1: nat, amount1: nat)
    requires
        total1 > 0,
        amount1 * total0 <= Balance::MAX,
    ensures
        quote(total0, total1, amount1) == (amount1 * total0) / total1,
{
    assert(0 <= amount1 * total0) by (nonlinear_arith);
    let product = (amount1 * total0) as int;
    assert(0 <= product / (total1 as int)) by (nonlinear_arith)
        requires
            0 <= product,
            total1 > 0,
    ;
}

impl PoolView {
    /// Buyers have not received more than the rate gives for what they
    /// paid: `swapped0 / swapped1 <= total0 / total1`, written without
    /// division.
    pub open spec fn within_rate(self) -> bool {
        self.swapped0 * self.total1 <= self.swapped1 * self.total0
    }

    /// While buyers pay no more than `total1` in all, the pricing formula
    /// alone keeps both cumulative amounts within the pool's totals, and
    /// each swap adds exactly what was paid and what was bought.
    pub proof fn lemma_swap_within_totals(self, amount1: nat)
        requires
            self.total0 <= Balance::MAX,
            0 < self.total1 <= Balance::MAX,
            self.within_rate(),
            self.swapped1 + amount1 <= self.total1,
        ensures
            ({
                let after = self.after_swap(self.quote(amount1), amount1);
                &&& after.swapped1 == self.swapped1 + amount1
                &&& after.swapped0 == self.swapped0 + self.quote(amount1)
                &&& after.swapped1 <= self.total1
                &&& after.swapped0 <= self.total0
                &&& after.within_rate()
            }),
    {
        let bought = self.quote(amount1);
        lemma_quote_within_rate(self.total0, self.total1, amount1);
        assert((self.swapped0 + bought) * self.total1 <= (self.swapped1 + amount1) * self.total0)
            by (nonlinear_arith)
            requires
                self.swapped0 * self.total1 <= self.swapped1 * self.total0,
                bought * self.total1 <= amount1 * self.total0,
        ;
        assert(self.swapped0 + bought <= self.total0) by (nonlinear_arith)
            requires
                (self.swapped0 + bought) * self.total1 <= (self.swapped1 + amount1) * self.total0,
                self.swapped1 + amount1 <= self.total1,
                self.total1 > 0,
        ;
    }

    /// What is released when the pool closes is exactly what was not sold.
    pub proof fn lemma_unswapped_is_remainder(self)
        requires
            self.swapped0 <= self.total0,
        ensures
            self.unswapped0() == self.total0 - self.swapped0,
    {
    }

    /// A pool that stays open for at least one block closes after it opens,
    /// `duration` blocks later unless the block numbers run out first.
    pub proof fn lemma_end_at(self)
        requires
            self.start_at <= BlockNumber::MAX,
        ensures
            self.start_at + self.duration <= BlockNumber::MAX ==> self.end_at() == self.start_at
                + self.duration,
            self.start_at <= self.end_at() <= BlockNumber::MAX,
            self.duration > 0 && self.start_at < BlockNumber::MAX ==> self.is_open(self.start_at),
            !self.is_open(self.end_at()),
    {
    }
}

impl PoolDetails {
    /// A pool with the given terms through which nothing has been swapped yet.
    pub fn new(
        name: Vec<u8>,
        creator: AccountId,
        token0: TokenId,
        token1: TokenId,
        total0: Balance,
        total1: Balance,
        duration: BlockNumber,
        start_at: BlockNumber,
    ) -> (pool: PoolDetails)
        ensures
            pool@ == (PoolView {
                name: name@,
                creator,
                token0,
                token1,
                total0: total0 as nat,
                total1: total1 as nat,
                swapped0: 0,
                swapped1: 0,
                duration: duration as nat,
                start_at: start_at as nat,
            }),
    {
        PoolDetails {
            name,
            creator,
            token0,
            token1,
            total0,
            total1,
            swapped0: 0,
            swapped1: 0,
            duration,
            start_at,
        }
    }

    /// The pool that a request at block `now` creates, or `InvalidDuration`
    /// where it would never be open.
    pub fn create(
        name: Vec<u8>,
        creator: AccountId,
        token0: TokenId,
        token1: TokenId,
        total0: Balance,
        total1: Balance,
        duration: BlockNumber,
        now: BlockNumber,
    ) -> (created: Result<PoolDetails, Error>)
        ensures
            duration == 0 ==> created == Err::<PoolDetails, Error>(Error::InvalidDuration),
            duration != 0 ==> created is Ok && created->Ok_0@ == (PoolView {
                name: name@,
                creator,
                token0,
                token1,
                total0: total0 as nat,
                total1: total1 as nat,
                swapped0: 0,
                swapped1: 0,
                duration: duration as nat,
                start_at: now as nat,
            }),
    {
        if duration == 0 {
            return Err(Error::InvalidDuration);
        }
        Ok(PoolDetails::new(name, creator, token0, token1, total0, total1, duration, now))
    }

    /// The first block at which the pool no longer trades.
    pub fn end_at(&self) -> (block: BlockNumber)
        ensures
            block == self@.end_at(),
    {
        self.start_at.saturating_add(self.duration)
    }

    /// Whether swaps are still accepted at block `now`.
    pub fn is_open(&self, now: BlockNumber) -> (open: bool)
        ensures
            open == self@.is_open(now as nat),
    {
        now < self.end_at()
    }

    /// What `amount1` of the paying asset buys from this pool, or
    /// `DivisionByZero` where the pool's `total1` is zero.
    pub fn quote(&self, amount1: Balance) -> (amount0: Result<Balance, Error>)
        ensures
            amount0 == if self.total1 == 0 {
                Err::<Balance, Error>(Error::DivisionByZero)
            } else {
                Ok(self@.quote(amount1 as nat) as Balance)
            },
            self.total1 != 0 ==> self@.quote(amount1 as nat) <= Balance::MAX,
    {
        if self.total1 == 0 {
            return Err(Error::DivisionByZero);
        }
        let product = saturating_mul(amount1, self.total0);
        Ok(product / self.total1)
    }

    /// Adds one swap to the cumulative amounts.
    pub fn record_swap(&mut self, amount0: Balance, amount1: Balance)
        ensures
            final(self)@ == old(self)@.after_swap(amount0 as nat, amount1 as nat),
    {
        self.swapped0 = self.swapped0.saturating_add(amount0);
        self.swapped1 = self.swapped1.saturating_add(amount1);
    }

    /// Takes a payment of `amount1` at block `now`: checks that the pool is
    /// open and its rate defined, adds the swap to the cumulative amounts
    /// and returns what was bought. A rejected payment leaves the pool as it
    /// was.
    pub fn swap(&mut self, amount1: Balance, now: BlockNumber) -> (bought: Result<Balance, Error>)
        ensures
            match old(self)@.try_swap(amount1 as nat, now as nat) {
                Ok((after, amount0)) => bought == Ok::<Balance, Error>(amount0 as Balance)
                    && amount0 <= Balance::MAX && final(self)@ == after,
                Err(e) => bought == Err::<Balance, Error>(e) && final(self)@ == old(self)@,
            },
    {
        if !self.is_open(now) {
            return Err(Error::PoolExpired);
        }
        match self.quote(amount1) {
            Err(e) => Err(e),
            Ok(amount0) => {
                self.record_swap(amount0, amount1);
                Ok(amount0)
            },
        }
    }

    /// The part of the escrow that was not sold.
    pub fn unswapped0(&self) -> (rest: Balance)
        ensures
            rest == self@.unswapped0(),
    {
        self.total0.saturating_sub(self.swapped0)
    }

    /// What creating the pool asks of the ledger.
    pub fn escrow(&self) -> (movement: Movement)
        ensures
            movement == self@.escrow(),
    {
        Movement::Reserve { token: self.token0, who: self.creator, amount: self.total0 }
    }

    /// What a swap of `amount1` for `amount0` asks of the ledger, in order.
    pub fn payment(&self, buyer: AccountId, amount0: Balance, amount1: Balance) -> (movements: (
        Movement,
        Movement,
        Movement,
    ))
        ensures
            movements == self@.payment(buyer, amount0, amount1),
    {
        (
            Movement::Unreserve { token: self.token0, who: self.creator, amount: amount0 },
            Movement::Transfer {
                token: self.token0,
                from: self.creator,
                to: buyer,
                amount: amount0,
            },
            Movement::Transfer {
                token: self.token1,
                from: buyer,
                to: self.creator,
                amount: amount1,
            },
        )
    }

    /// What closing the pool asks of the ledger, if anything.
    pub fn payout(&self) -> (movement: Option<Movement>)
        ensures
            movement == self@.payout(),
    {
        let rest = self.unswapped0();
        if rest == 0 {
            None
        } else {
            Some(Movement::Unreserve { token: self.token0, who: self.creator, amount: rest })
        }
    }
}

} // verus!
