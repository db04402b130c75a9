//! A block clock, a ledger and the pools, run together: pools are created
//! and swapped against at the current block, and each block ends by closing
//! the pools that wait for it.

use vstd::prelude::*;
use crate::book::Book;
use crate::ledger::Ledger;
use crate::module::FixedSwap;
use crate::pool::PoolView;
use crate::state::{closed_events, lemma_waits_once, payment, release, settle, Event, State};
use crate::tokens::Tokens;
use crate::types::{AccountId, Balance, BlockNumber, Error, LedgerError, PoolId, TokenId};

verus! {

/// The pools together with the ledger they settle against and the height of
/// the block being built.
pub struct Runtime {
    block_number: BlockNumber,
    tokens: Tokens,
    fixed_swap: FixedSwap,
}

/// No pool waits for a block that has already ended: every pool still
/// waiting will be reached.
pub open spec fn on_schedule(state: State, now: BlockNumber) -> bool {
    forall|block: BlockNumber| block < now ==> #[trigger] state.due_at(block).len() == 0
}

/// The block after `now`; the largest block number is followed by itself.
pub open spec fn block_after(now: BlockNumber) -> BlockNumber {
    if now == BlockNumber::MAX {
        now
    } else {
        (now + 1) as BlockNumber
    }
}

/// No pool is left behind: while the state is on schedule, a pool that
/// still waits, waits for its own end block, and that block is the current
/// one or lies ahead. So ending block after block reaches every pool, and
/// reaches it at its end block. (Stated of every identifier but the
/// largest.)
pub proof fn lemma_no_pool_left_behind(
    state: State,
    now: BlockNumber,
    id: PoolId,
    block: BlockNumber,
    i: int,
)
    requires
        state.inv(),
        on_schedule(state, now),
        id < PoolId::MAX,
        0 <= i < state.due_at(block).len(),
        state.due_at(block)[i] == id,
    ensures
        state.pools.contains_key(id),
        block == state.pools[id].end_at(),
        now <= block,
{
    lemma_waits_once(state, id, block, i, block, i);
}

/// Ending a block keeps the state on schedule: once the pools of block
/// `now` are closed, nothing waits for a block before the next one.
pub proof fn lemma_next_block_on_schedule(state: State, now: BlockNumber)
    requires
        on_schedule(state, now),
    ensures
        on_schedule(state.finalize(now), block_after(now)),
{
}

/// Creating a pool keeps the state on schedule: a pool created at block
/// `now` waits for a block that is not before `now`.
pub proof fn lemma_create_on_schedule(state: State, now: BlockNumber, pool: PoolView)
    requires
        on_schedule(state, now),
        pool.start_at == now,
    ensures
        on_schedule(state.create(pool), now),
{
}

impl Runtime {
    /// The height of the block being built.
    pub closed spec fn now(&self) -> BlockNumber {
        self.block_number
    }

    /// What the pools store.
    pub closed spec fn state(&self) -> State {
        self.fixed_swap@
    }

    /// What the ledger records.
    pub closed spec fn book(&self) -> Book {
        self.tokens.book()
    }

    /// The units of `token` in circulation.
    pub closed spec fn issuance(&self, token: TokenId) -> nat {
        self.tokens.issuance(token)
    }

    /// The ledger's own consistency.
    pub closed spec fn ledger_wf(&self) -> bool {
        self.tokens.wf()
    }

    /// The pools' state is consistent, so is the ledger, and no pool has
    /// been left behind by the clock.
    pub open spec fn wf(&self) -> bool {
        &&& self.state().inv()
        &&& self.ledger_wf()
        &&& on_schedule(self.state(), self.now())
    }

    /// Block zero, an empty ledger and no pools.
    pub fn new() -> (runtime: Runtime)
        ensures
            runtime.wf(),
            runtime.now() == 0,
            runtime.state() == State::genesis(),
            runtime.book() == Book::empty(),
            forall|token: TokenId| #[trigger] runtime.issuance(token) == 0,
    {
        Runtime { block_number: 0, tokens: Tokens::new(), fixed_swap: FixedSwap::new() }
    }

    /// The height of the block being built.
    pub fn block_number(&self) -> (now: BlockNumber)
        ensures
            now == self.now(),
    {
        self.block_number
    }

    /// The ledger, for reading.
    pub fn tokens(&self) -> (tokens: &Tokens)
        ensures
            tokens.book() == self.book(),
            tokens.wf() == self.ledger_wf(),
            forall|token: TokenId| #[trigger] tokens.issuance(token) == self.issuance(token),
    {
        &self.tokens
    }

    /// The pools' storage, for reading.
    pub fn fixed_swap(&self) -> (module: &FixedSwap)
        ensures
            module@ == self.state(),
    {
        &self.fixed_swap
    }

    /// Puts `amount` new units of `token` into the free balance of `who`,
    /// unless the units in circulation would then no longer fit in a
    /// balance: in that case nothing changes and the result is `false`.
    pub fn deposit(&mut self, token: TokenId, who: AccountId, amount: Balance) -> (done: bool)
        requires
            old(self).wf(),
        ensures
            final(self).wf(),
            final(self).now() == old(self).now(),
            final(self).state() == old(self).state(),
            done == (old(self).issuance(token) + amount <= Balance::MAX),
            final(self).book() == if done {
                old(self).book().deposit(token, who, amount as nat)
            } else {
                old(self).book()
            },
            forall|any: TokenId| #[trigger]
                final(self).issuance(any) == old(self).issuance(any) + if done && any == token {
                    amount as int
                } else {
                    0
                },
    {
        self.tokens.deposit(token, who, amount)
    }

    /// Creates a pool at the current block. See [`FixedSwap::create`].
    pub fn create(
        &mut self,
        creator: AccountId,
        name: Vec<u8>,
        token0: TokenId,
        token1: TokenId,
        total0: Balance,
        total1: Balance,
        duration: BlockNumber,
    ) -> (outcome: Result<Event, Error>)
        requires
            old(self).wf(),
        ensures
            final(self).wf(),
            final(self).now() == old(self).now(),
            forall|any: TokenId| #[trigger] final(self).issuance(any) == old(self).issuance(any),
            ({
                let pool = PoolView {
                    name: name@,
                    creator,
                    token0,
                    token1,
                    total0: total0 as nat,
                    total1: total1 as nat,
                    swapped0: 0,
                    swapped1: 0,
                    duration: duration as nat,
                    start_at: old(self).now() as nat,
                };
                &&& outcome == old(self).state().create_outcome(old(self).book(), pool)
                &&& outcome is Ok ==> {
                    &&& final(self).state() == old(self).state().create(pool)
                    &&& final(self).state().due_at(pool.end_at() as BlockNumber).contains(
                        old(self).state().next_pool_id,
                    )
                    &&& final(self).book() == old(self).book().reserve(
                        token0,
                        creator,
                        total0 as nat,
                    )
                }
                &&& outcome is Err ==> {
                    &&& final(self).state() == old(self).state()
                    &&& final(self).book() == old(self).book()
                }
            }),
    {
        let now = self.block_number;
        self.fixed_swap.create(
            &mut self.tokens,
            creator,
            name,
            token0,
            token1,
            total0,
            total1,
            duration,
            now,
        )
    }

    /// Swaps at the current block. See [`FixedSwap::swap`].
    pub fn swap(&mut self, buyer: AccountId, pool_id: PoolId, amount1: Balance) -> (outcome: Result<
        Event,
        Error,
    >)
        requires
            old(self).wf(),
        ensures
            final(self).wf(),
            final(self).now() == old(self).now(),
            forall|any: TokenId| #[trigger] final(self).issuance(any) == old(self).issuance(any),
            outcome == old(self).state().swap_outcome(
                old(self).book(),
                buyer,
                pool_id,
                amount1 as nat,
                old(self).now(),
            ),
            outcome is Ok ==> {
                let pool = old(self).state().pools[pool_id];
                let amount0 = pool.quote(amount1 as nat);
                &&& final(self).state() == old(self).state().swap(
                    pool_id,
                    buyer,
                    amount0,
                    amount1 as nat,
                )
                &&& payment(old(self).book(), pool, buyer, amount0, amount1 as nat) == Ok::<
                    Book,
                    LedgerError,
                >(final(self).book())
            },
            outcome is Err ==> {
                &&& final(self).state() == old(self).state()
                &&& final(self).book() == old(self).book()
            },
    {
        let now = self.block_number;
        let outcome = self.fixed_swap.swap(&mut self.tokens, buyer, pool_id, amount1, now);
        proof {
            assert forall|block: BlockNumber| block < now implies #[trigger] self.state().due_at(
                block,
            ).len() == 0 by {
                assert(old(self).state().due_at(block).len() == 0);
            }
        }
        outcome
    }

    /// Closes the pools that wait for block `now`, whatever the clock says.
    /// See [`FixedSwap::on_finalize`].
    pub fn on_finalize(&mut self, now: BlockNumber) -> (outcome: Result<Vec<Event>, Error>)
        requires
            old(self).wf(),
        ensures
            final(self).wf(),
            final(self).now() == old(self).now(),
            forall|any: TokenId| #[trigger] final(self).issuance(any) == old(self).issuance(any),
            match settle(old(self).book(), old(self).state().pools, old(self).state().due_at(now)) {
                Ok(settled) => {
                    &&& outcome matches Ok(events)
                    &&& events@ == closed_events(old(self).state().due_at(now))
                    &&& final(self).state() == old(self).state().finalize(now)
                    &&& final(self).book() == settled
                },
                Err(e) => {
                    &&& outcome == Err::<Vec<Event>, Error>(Error::Ledger(e))
                    &&& final(self).state() == old(self).state()
                    &&& final(self).book() == old(self).book()
                },
            },
            old(self).state().due_at(now).len() == 0 ==> outcome is Ok,
            old(self).state().due_at(now).len() == 1 ==> settle(
                old(self).book(),
                old(self).state().pools,
                old(self).state().due_at(now),
            ) == release(old(self).book(), old(self).state().pools[old(self).state().due_at(now)[0]]),
    {
        self.fixed_swap.on_finalize(&mut self.tokens, now)
    }

    /// Ends the current block: closes the pools that wait for it and moves
    /// the clock to the next block. Where the pools cannot be closed, the
    /// clock stays as well.
    pub fn next_block(&mut self) -> (outcome: Result<Vec<Event>, Error>)
        requires
            old(self).wf(),
        ensures
            final(self).wf(),
            forall|any: TokenId| #[trigger] final(self).issuance(any) == old(self).issuance(any),
            match settle(
                old(self).book(),
                old(self).state().pools,
                old(self).state().due_at(old(self).now()),
            ) {
                Ok(settled) => {
                    &&& outcome matches Ok(events)
                    &&& events@ == closed_events(old(self).state().due_at(old(self).now()))
                    &&& final(self).state() == old(self).state().finalize(old(self).now())
                    &&& final(self).book() == settled
                    &&& final(self).now() == block_after(old(self).now())
                },
                Err(e) => {
                    &&& outcome == Err::<Vec<Event>, Error>(Error::Ledger(e))
                    &&& final(self).state() == old(self).state()
                    &&& final(self).book() == old(self).book()
                    &&& final(self).now() == old(self).now()
                },
            },
            old(self).state().due_at(old(self).now()).len() == 0 ==> outcome is Ok,
            old(self).state().due_at(old(self).now()).len() == 1 ==> settle(
                old(self).book(),
                old(self).state().pools,
                old(self).state().due_at(old(self).now()),
            ) == release(
                old(self).book(),
                old(self).state().pools[old(self).state().due_at(old(self).now())[0]],
            ),
    {
        let now = self.block_number;
        match self.fixed_swap.on_finalize(&mut self.tokens, now) {
            Ok(events) => {
                self.block_number = now.saturating_add(1);
                Ok(events)
            },
            Err(e) => Err(e),
        }
    }
}

} // verus!
