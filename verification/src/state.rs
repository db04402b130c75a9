//! The pools as a mathematical state machine: what is stored, the three
//! transitions, what each asks of the ledger, and the laws that follow.

use vstd::prelude::*;
use crate::book::Book;
use crate::pool::{accumulated, next_id, PoolView};
use crate::types::{AccountId, Balance, BlockNumber, Error, LedgerError, PoolId, TokenId};

verus! {

/// What a transition tells the outside world.
#[derive(Clone, Copy, Debug, PartialEq, Eq, Structural)]
pub enum Event {
    /// A pool was created by the account.
    PoolCreated(PoolId, AccountId),
    /// The account bought from the pool.
    PoolSwapped(PoolId, AccountId),
    /// The pool's end block was finalized.
    PoolClosed(PoolId),
}

/// Everything the pools store.
#[verifier::ext_equal]
pub struct State {
    /// The identifier the next pool gets.
    pub next_pool_id: PoolId,
    /// Every pool ever created, closed ones included.
    pub pools: Map<PoolId, PoolView>,
    /// Per pool and buyer, what the buyer received and paid so far; zero
    /// for a buyer who never swapped.
    pub swaps: spec_fn(PoolId, AccountId) -> (nat, nat),
    /// Per block, the pools waiting to be closed when it is finalized, in
    /// the order in which they were created.
    pub due: spec_fn(BlockNumber) -> Seq<PoolId>,
}

impl State {
    /// No pools, no swaps, nothing due; identifiers start at zero.
    pub open spec fn genesis() -> State {
        State {
            next_pool_id: 0,
            pools: Map::empty(),
            swaps: |id: PoolId, who: AccountId| (0nat, 0nat),
            due: |block: BlockNumber| Seq::<PoolId>::empty(),
        }
    }

    /// The pools waiting for `block`.
    pub open spec fn due_at(self, block: BlockNumber) -> Seq<PoolId> {
        (self.due)(block)
    }

    /// What `who` received from and paid into pool `id` so far.
    pub open spec fn swapped_by(self, id: PoolId, who: AccountId) -> (nat, nat) {
        (self.swaps)(id, who)
    }

    /// Whether pool `id` is still waiting for some block.
    pub open spec fn is_scheduled(self, id: PoolId) -> bool {
        exists|block: BlockNumber| #[trigger] self.due_at(block).contains(id)
    }

    /// The consistency of the stored data.
    ///
    /// Identifiers are handed out in order and every pool created is still
    /// stored. A pool that waits for a block
    /// exists, waits there once, and, unless it carries the largest
    /// identifier, waits for its own end block. (The largest identifier is
    /// the one the counter stays on, so a pool under it can be replaced by a
    /// later one.)
    pub open spec fn inv(self) -> bool {
        &&& forall|id: PoolId| id < self.next_pool_id ==> #[trigger] self.pools.contains_key(id)
        &&& forall|id: PoolId| #[trigger]
            self.pools.contains_key(id) ==> id < self.next_pool_id || self.next_pool_id
                == PoolId::MAX
        &&& forall|block: BlockNumber, i: int|
            0 <= i < self.due_at(block).len() ==> self.pools.contains_key(
                #[trigger] self.due_at(block)[i],
            )
        &&& forall|block: BlockNumber, i: int|
            0 <= i < self.due_at(block).len() && self.due_at(block)[i] < PoolId::MAX
                ==> self.pools[#[trigger] self.due_at(block)[i]].end_at() == block
        &&& forall|block: BlockNumber| #[trigger] self.due_at(block).no_duplicates()
    }

    /// The state after `pool` is stored under the next identifier and set to
    /// wait for its end block.
    pub open spec fn create(self, pool: PoolView) -> State {
        let id = self.next_pool_id;
        State {
            next_pool_id: next_id(id),
            pools: self.pools.insert(id, pool),
            swaps: self.swaps,
            due: |block: BlockNumber|
                if block == pool.end_at() && !self.due_at(block).contains(id) {
                    self.due_at(block).push(id)
                } else {
                    self.due_at(block)
                },
        }
    }

    /// The state after `buyer` paid `amount1` into pool `id` and received
    /// `amount0`: the pool's and the buyer's cumulative amounts grow, each
    /// clamped at the largest balance.
    pub open spec fn swap(self, id: PoolId, buyer: AccountId, amount0: nat, amount1: nat) -> State
        recommends
            self.pools.contains_key(id),
    {
        let record = accumulated(self.swapped_by(id, buyer), amount0, amount1);
        State {
            next_pool_id: self.next_pool_id,
            pools: self.pools.insert(id, self.pools[id].after_swap(amount0, amount1)),
            swaps: |p: PoolId, w: AccountId|
                if p == id && w == buyer {
                    record
                } else {
                    self.swapped_by(p, w)
                },
            due: self.due,
        }
    }

    /// The state after block `now` is finalized: nothing waits for it any
    /// more. The pools' records stay.
    pub open spec fn finalize(self, now: BlockNumber) -> State {
        State {
            next_pool_id: self.next_pool_id,
            pools: self.pools,
            swaps: self.swaps,
            due: |block: BlockNumber|
                if block == now {
                    Seq::<PoolId>::empty()
                } else {
                    self.due_at(block)
                },
        }
    }

    /// How a request to create a pool ends: `InvalidDuration` for a pool
    /// that would never be open, the ledger's refusal where the creator
    /// cannot reserve the escrow, the notification otherwise.
    pub open spec fn create_outcome(self, book: Book, pool: PoolView) -> Result<Event, Error> {
        if pool.duration == 0 {
            Err(Error::InvalidDuration)
        } else {
            match book.try_reserve(pool.token0, pool.creator, pool.total0) {
                Err(e) => Err(Error::Ledger(e)),
                Ok(_) => Ok(Event::PoolCreated(self.next_pool_id, pool.creator)),
            }
        }
    }

    /// How a request to swap ends. The checks come in this order: the pool
    /// exists, it is still open at `now`, its rate is defined, the ledger
    /// carries out the payment.
    pub open spec fn swap_outcome(
        self,
        book: Book,
        buyer: AccountId,
        id: PoolId,
        amount1: nat,
        now: BlockNumber,
    ) -> Result<Event, Error> {
        if !self.pools.contains_key(id) {
            Err(Error::PoolNotFound)
        } else {
            match self.pools[id].try_swap(amount1, now as nat) {
                Err(e) => Err(e),
                Ok((_, amount0)) => match payment(book, self.pools[id], buyer, amount0, amount1) {
                    Err(e) => Err(Error::Ledger(e)),
                    Ok(_) => Ok(Event::PoolSwapped(id, buyer)),
                },
            }
        }
    }
}

/// The ledger movements of one swap, in order: `amount0` of the escrowed
/// asset leaves the creator's reserve, goes from the creator to the buyer,
/// and `amount1` of the paying asset goes from the buyer to the creator. The
/// first movement that the ledger refuses decides the error.
pub open spec fn payment(
    book: Book,
    pool: PoolView,
    buyer: AccountId,
    amount0: nat,
    amount1: nat,
) -> Result<Book, LedgerError> {
    match book.try_unreserve(pool.token0, pool.creator, amount0) {
        Err(e) => Err(e),
        Ok(released) => match released.try_transfer(pool.token0, pool.creator, buyer, amount0) {
            Err(e) => Err(e),
            Ok(delivered) => delivered.try_transfer(pool.token1, buyer, pool.creator, amount1),
        },
    }
}

/// The ledger movement that closes one pool: what was not sold leaves the
/// creator's reserve. A pool that sold out moves nothing.
pub open spec fn release(book: Book, pool: PoolView) -> Result<Book, LedgerError> {
    if pool.unswapped0() == 0 {
        Ok(book)
    } else {
        book.try_unreserve(pool.token0, pool.creator, pool.unswapped0())
    }
}

/// The ledger movements that close the pools `ids`, in order. The first
/// release that the ledger refuses decides the error.
pub open spec fn settle(book: Book, pools: Map<PoolId, PoolView>, ids: Seq<PoolId>) -> Result<
    Book,
    LedgerError,
>
    decreases ids.len(),
{
    if ids.len() == 0 {
        Ok(book)
    } else {
        match settle(book, pools, ids.drop_last()) {
            Err(e) => Err(e),
            Ok(settled) => release(settled, pools[ids.last()]),
        }
    }
}

/// The movements that a pool hands out are the movements that the
/// transitions are defined by: its escrow is the reservation of a creation,
/// its payment the three steps of a swap, its payout the release of a
/// closing. So whoever carries the movements out in order, on whatever
/// ledger, does to it what the transitions say.
pub proof fn lemma_movements(
    book: Book,
    pool: PoolView,
    buyer: AccountId,
    amount0: Balance,
    amount1: Balance,
)
    requires
        pool.total0 <= Balance::MAX,
    ensures
        book.try_move(pool.escrow()) == book.try_reserve(pool.token0, pool.creator, pool.total0),
        book.try_moves(pool.payment(buyer, amount0, amount1)) == payment(
            book,
            pool,
            buyer,
            amount0 as nat,
            amount1 as nat,
        ),
        release(book, pool) == match pool.payout() {
            None => Ok(book),
            Some(movement) => book.try_move(movement),
        },
{
}

/// One `PoolClosed` per pool, in the same order.
pub open spec fn closed_events(ids: Seq<PoolId>) -> Seq<Event> {
    Seq::new(ids.len(), |i: int| Event::PoolClosed(ids[i]))
}

/// A release that fails among the first `n` pools fails the whole list.
pub proof fn lemma_settle_fails_early(
    book: Book,
    pools: Map<PoolId, PoolView>,
    ids: Seq<PoolId>,
    n: int,
)
    requires
        0 <= n <= ids.len(),
        settle(book, pools, ids.take(n)) is Err,
    ensures
        settle(book, pools, ids) == settle(book, pools, ids.take(n)),
    decreases ids.len() - n,
{
    if n < ids.len() {
        assert(ids.take(n + 1).drop_last() =~= ids.take(n));
        lemma_settle_fails_early(book, pools, ids, n + 1);
    } else {
        assert(ids.take(n) =~= ids);
    }
}

impl State {
    /// The empty state is consistent.
    pub proof fn lemma_genesis_inv()
        ensures
            State::genesis().inv(),
    {
    }

    /// Creating a pool keeps the state consistent.
    pub proof fn lemma_create_inv(self, pool: PoolView)
        requires
            self.inv(),
        ensures
            self.create(pool).inv(),
    {
        let after = self.create(pool);
        let id = self.next_pool_id;
        assert forall|block: BlockNumber, i: int| 0 <= i < after.due_at(block).len() implies {
            let waiting = #[trigger] after.due_at(block)[i];
            &&& after.pools.contains_key(waiting)
            &&& waiting < PoolId::MAX ==> after.pools[waiting].end_at() == block
        } by {
            if i < self.due_at(block).len() {
                let waiting = self.due_at(block)[i];
                assert(self.pools.contains_key(waiting));
                assert(after.due_at(block)[i] == waiting);
            }
        }
        assert forall|block: BlockNumber| #[trigger] after.due_at(block).no_duplicates() by {
            assert(self.due_at(block).no_duplicates());
            if block == pool.end_at() && !self.due_at(block).contains(id) {
                let old_len = self.due_at(block).len() as int;
                assert forall|a: int, b: int|
                    0 <= a < after.due_at(block).len() && 0 <= b < after.due_at(block).len() && a
                        != b implies after.due_at(block)[a] != after.due_at(block)[b] by {
                    if a < old_len && b < old_len {
                    } else if a < old_len {
                        assert(self.due_at(block)[a] != id);
                    } else {
                        assert(self.due_at(block)[b] != id);
                    }
                }
            }
        }
    }

    /// A swap keeps the state consistent.
    pub proof fn lemma_swap_inv(self, id: PoolId, buyer: AccountId, amount0: nat, amount1: nat)
        requires
            self.inv(),
            self.pools.contains_key(id),
        ensures
            self.swap(id, buyer, amount0, amount1).inv(),
    {
        let after = self.swap(id, buyer, amount0, amount1);
        assert forall|block: BlockNumber, i: int| 0 <= i < after.due_at(block).len() implies {
            let waiting = #[trigger] after.due_at(block)[i];
            &&& after.pools.contains_key(waiting)
            &&& waiting < PoolId::MAX ==> after.pools[waiting].end_at() == block
        } by {
            assert(self.pools.contains_key(self.due_at(block)[i]));
        }
        assert forall|block: BlockNumber| #[trigger] after.due_at(block).no_duplicates() by {
            assert(self.due_at(block).no_duplicates());
        }
    }

    /// Finalizing a block keeps the state consistent.
    pub proof fn lemma_finalize_inv(self, now: BlockNumber)
        requires
            self.inv(),
        ensures
            self.finalize(now).inv(),
    {
        let after = self.finalize(now);
        assert forall|block: BlockNumber, i: int| 0 <= i < after.due_at(block).len() implies {
            let waiting = #[trigger] after.due_at(block)[i];
            &&& after.pools.contains_key(waiting)
            &&& waiting < PoolId::MAX ==> after.pools[waiting].end_at() == block
        } by {
            assert(self.pools.contains_key(self.due_at(block)[i]));
        }
        assert forall|block: BlockNumber| #[trigger] after.due_at(block).no_duplicates() by {
            assert(self.due_at(block).no_duplicates());
        }
    }
}

/// Creating a pool reserves its escrow and nothing else: the creator's
/// reserved balance of `token0` grows by exactly `total0`, taken from the
/// free balance; nobody's holdings change otherwise. The pool is stored
/// under the identifier that the notification carries and waits for its end
/// block, `duration` blocks after the block of creation.
pub proof fn lemma_create_reserves_escrow(state: State, book: Book, pool: PoolView)
    requires
        state.create_outcome(book, pool) is Ok,
        pool.start_at <= BlockNumber::MAX,
    ensures
        ({
            let id = state.next_pool_id;
            let after = book.reserve(pool.token0, pool.creator, pool.total0);
            &&& state.create_outcome(book, pool) == Ok::<Event, Error>(
                Event::PoolCreated(id, pool.creator),
            )
            &&& after.reserved(pool.token0, pool.creator) == book.reserved(
                pool.token0,
                pool.creator,
            ) + pool.total0
            &&& after.free(pool.token0, pool.creator) == book.free(pool.token0, pool.creator)
                - pool.total0
            &&& forall|t: TokenId, w: AccountId| #[trigger] after.total(t, w) == book.total(t, w)
            &&& forall|t: TokenId, w: AccountId|
                !(t == pool.token0 && w == pool.creator) ==> #[trigger] after.holding(t, w)
                    == book.holding(t, w)
            &&& state.create(pool).pools.contains_key(id)
            &&& state.create(pool).pools[id] == pool
            &&& state.create(pool).due_at(pool.end_at() as BlockNumber).contains(id)
            &&& pool.start_at + pool.duration <= BlockNumber::MAX ==> pool.end_at()
                == pool.start_at + pool.duration
        }),
{
    let id = state.next_pool_id;
    let end_at = pool.end_at() as BlockNumber;
    let waiting = state.create(pool).due_at(end_at);
    if state.due_at(end_at).contains(id) {
        assert(waiting == state.due_at(end_at));
    } else {
        assert(waiting[waiting.len() - 1] == id);
    }
}

/// Expiry: a swap against an existing pool is rejected with `PoolExpired`
/// exactly from the pool's end block on. Before that block it succeeds
/// whenever the rate is defined and the ledger carries out the payment.
pub proof fn lemma_expiry(
    state: State,
    book: Book,
    buyer: AccountId,
    id: PoolId,
    amount1: nat,
    now: BlockNumber,
)
    requires
        state.pools.contains_key(id),
    ensures
        now >= state.pools[id].end_at() <==> state.swap_outcome(book, buyer, id, amount1, now)
            == Err::<Event, Error>(Error::PoolExpired),
        now < state.pools[id].end_at() && state.pools[id].total1 > 0 && payment(
            book,
            state.pools[id],
            buyer,
            state.pools[id].quote(amount1),
            amount1,
        ) is Ok ==> state.swap_outcome(book, buyer, id, amount1, now) == Ok::<Event, Error>(
            Event::PoolSwapped(id, buyer),
        ),
{
}

/// What a swap moves, between two different accounts and two different
/// assets: the buyer receives `amount0` of the escrowed asset out of the
/// creator's reserve and pays `amount1` of the other asset to the creator.
pub proof fn lemma_payment_moves(
    book: Book,
    pool: PoolView,
    buyer: AccountId,
    amount0: nat,
    amount1: nat,
)
    requires
        payment(book, pool, buyer, amount0, amount1) is Ok,
        buyer != pool.creator,
        pool.token0 != pool.token1,
    ensures
        ({
            let after = payment(book, pool, buyer, amount0, amount1)->Ok_0;
            &&& after.reserved(pool.token0, pool.creator) == book.reserved(
                pool.token0,
                pool.creator,
            ) - amount0
            &&& after.free(pool.token0, pool.creator) == book.free(pool.token0, pool.creator)
            &&& after.free(pool.token0, buyer) == book.free(pool.token0, buyer) + amount0
            &&& after.reserved(pool.token0, buyer) == book.reserved(pool.token0, buyer)
            &&& after.free(pool.token1, buyer) == book.free(pool.token1, buyer) - amount1
            &&& after.free(pool.token1, pool.creator) == book.free(pool.token1, pool.creator)
                + amount1
            &&& after.reserved(pool.token1, pool.creator) == book.reserved(
                pool.token1,
                pool.creator,
            )
            &&& forall|t: TokenId, w: AccountId|
                w != buyer && w != pool.creator ==> #[trigger] after.holding(t, w) == book.holding(
                    t,
                    w,
                )
            &&& forall|t: TokenId, w: AccountId|
                t != pool.token0 && t != pool.token1 ==> #[trigger] after.holding(t, w)
                    == book.holding(t, w)
        }),
{
}

/// What a swap records: while nothing reaches the largest balance, the
/// pool's and the buyer's cumulative amounts grow by exactly what was bought
/// and paid; the pool's terms, the other pools, the other buyers' records
/// and the schedule stay as they are.
pub proof fn lemma_swap_records(
    state: State,
    id: PoolId,
    buyer: AccountId,
    amount0: nat,
    amount1: nat,
)
    requires
        state.pools.contains_key(id),
        state.pools[id].swapped0 + amount0 <= Balance::MAX,
        state.pools[id].swapped1 + amount1 <= Balance::MAX,
        state.swapped_by(id, buyer).0 + amount0 <= Balance::MAX,
        state.swapped_by(id, buyer).1 + amount1 <= Balance::MAX,
    ensures
        ({
            let after = state.swap(id, buyer, amount0, amount1);
            &&& after.pools[id].swapped0 == state.pools[id].swapped0 + amount0
            &&& after.pools[id].swapped1 == state.pools[id].swapped1 + amount1
            &&& after.pools[id] == (PoolView {
                swapped0: after.pools[id].swapped0,
                swapped1: after.pools[id].swapped1,
                ..state.pools[id]
            })
            &&& after.swapped_by(id, buyer) == (
                state.swapped_by(id, buyer).0 + amount0,
                state.swapped_by(id, buyer).1 + amount1,
            )
            &&& forall|other: PoolId|
                other != id ==> after.pools.contains_key(other) == state.pools.contains_key(other)
                    && #[trigger] after.pools[other] == state.pools[other]
            &&& forall|p: PoolId, w: AccountId|
                !(p == id && w == buyer) ==> #[trigger] after.swapped_by(p, w) == state.swapped_by(
                    p,
                    w,
                )
            &&& after.due == state.due
            &&& after.next_pool_id == state.next_pool_id
        }),
{
}

/// Closing a pool returns exactly what was not sold: that much leaves the
/// creator's reserve and joins the creator's free balance, and nothing else
/// changes. Where the reserve held nothing but this remainder, it is empty
/// afterwards.
pub proof fn lemma_release_returns_remainder(book: Book, pool: PoolView)
    requires
        release(book, pool) is Ok,
    ensures
        ({
            let after = release(book, pool)->Ok_0;
            let rest = pool.unswapped0();
            &&& pool.swapped0 <= pool.total0 ==> rest == pool.total0 - pool.swapped0
            &&& after.reserved(pool.token0, pool.creator) == book.reserved(
                pool.token0,
                pool.creator,
            ) - rest
            &&& after.free(pool.token0, pool.creator) == book.free(pool.token0, pool.creator)
                + rest
            &&& book.reserved(pool.token0, pool.creator) == rest ==> after.reserved(
                pool.token0,
                pool.creator,
            ) == 0
            &&& forall|t: TokenId, w: AccountId|
                !(t == pool.token0 && w == pool.creator) ==> #[trigger] after.holding(t, w)
                    == book.holding(t, w)
        }),
{
}

/// Finalizing a block for which a single pool waits releases that pool's
/// remainder, and is refused only if that release is.
pub proof fn lemma_settle_one(book: Book, pools: Map<PoolId, PoolView>, id: PoolId)
    ensures
        settle(book, pools, seq![id]) == release(book, pools[id]),
{
    assert(seq![id].drop_last() =~= Seq::<PoolId>::empty());
    assert(settle(book, pools, seq![id].drop_last()) == Ok::<Book, LedgerError>(book));
}

/// The scheduler closes a pool at its own end block and nowhere else: a
/// pool that waits, waits for the block at which it stops trading, and for
/// no second block nor twice for the same. (Stated of every identifier but
/// the largest.)
pub proof fn lemma_waits_once(
    state: State,
    id: PoolId,
    block: BlockNumber,
    i: int,
    other: BlockNumber,
    j: int,
)
    requires
        state.inv(),
        id < PoolId::MAX,
        0 <= i < state.due_at(block).len(),
        state.due_at(block)[i] == id,
        0 <= j < state.due_at(other).len(),
        state.due_at(other)[j] == id,
    ensures
        state.pools.contains_key(id),
        block == state.pools[id].end_at(),
        other == block,
        j == i,
{
    assert(state.pools.contains_key(state.due_at(block)[i]));
    assert(state.pools[state.due_at(block)[i]].end_at() == block);
    assert(state.pools[state.due_at(other)[j]].end_at() == other);
    assert(state.due_at(block).no_duplicates());
}

/// Creating a pool sets that pool to wait and touches no other: whether any
/// other pool waits for a block, and for which, stays as it was. So a pool
/// that was closed is not brought back by later creations.
pub proof fn lemma_create_schedules_only_new(state: State, pool: PoolView, other: PoolId)
    requires
        other != state.next_pool_id,
    ensures
        forall|block: BlockNumber| #[trigger]
            state.create(pool).due_at(block).contains(other) == state.due_at(block).contains(
                other,
            ),
        state.create(pool).is_scheduled(other) == state.is_scheduled(other),
{
    let after = state.create(pool);
    assert forall|block: BlockNumber| #[trigger]
        after.due_at(block).contains(other) == state.due_at(block).contains(other) by {
        let before = state.due_at(block);
        if after.due_at(block) != before {
            let pushed = before.push(state.next_pool_id);
            if before.contains(other) {
                let i = choose|i: int| 0 <= i < before.len() && before[i] == other;
                assert(pushed[i] == other);
            }
            if pushed.contains(other) {
                let i = choose|i: int| 0 <= i < pushed.len() && pushed[i] == other;
                assert(before[i] == other);
            }
        }
    }
    if state.is_scheduled(other) {
        let block = choose|block: BlockNumber| #[trigger] state.due_at(block).contains(other);
        assert(after.due_at(block).contains(other));
    }
    if after.is_scheduled(other) {
        let block = choose|block: BlockNumber| #[trigger] after.due_at(block).contains(other);
        assert(state.due_at(block).contains(other));
    }
}

/// Finalizing block `now` closes every pool that waits for it, each once,
/// and no other: afterwards none of them waits for any block, and every
/// other block's pools wait as before. So no pool is closed before its end
/// block, and none is closed again. (That a closed pool waits nowhere is
/// stated of every identifier but the largest.)
pub proof fn lemma_finalize_closes_once(state: State, now: BlockNumber)
    requires
        state.inv(),
    ensures
        closed_events(state.due_at(now)).len() == state.due_at(now).len(),
        forall|i: int|
            0 <= i < state.due_at(now).len() ==> #[trigger] closed_events(state.due_at(now))[i]
                == Event::PoolClosed(state.due_at(now)[i]),
        state.due_at(now).no_duplicates(),
        state.finalize(now).due_at(now).len() == 0,
        forall|block: BlockNumber|
            block != now ==> #[trigger] state.finalize(now).due_at(block) == state.due_at(block),
        forall|i: int|
            0 <= i < state.due_at(now).len() && state.due_at(now)[i] < PoolId::MAX
                ==> !state.finalize(now).is_scheduled(#[trigger] state.due_at(now)[i]),
        state.finalize(now).pools == state.pools,
{
    let after = state.finalize(now);
    assert forall|i: int|
        0 <= i < state.due_at(now).len() && state.due_at(now)[i] < PoolId::MAX
        implies !after.is_scheduled(#[trigger] state.due_at(now)[i]) by {
        let id = state.due_at(now)[i];
        if after.is_scheduled(id) {
            let block = choose|block: BlockNumber| #[trigger] after.due_at(block).contains(id);
            let waiting = after.due_at(block);
            let j = choose|j: int| 0 <= j < waiting.len() && waiting[j] == id;
            lemma_waits_once(state, id, now, i, block, j);
        }
    }
}

/// A swap creates and destroys nothing: a group of distinct accounts that
/// includes the creator and the buyer owns of every asset the same before
/// and after.
pub proof fn lemma_payment_conserves(
    book: Book,
    pool: PoolView,
    buyer: AccountId,
    amount0: nat,
    amount1: nat,
    token: TokenId,
    holders: Seq<AccountId>,
)
    requires
        payment(book, pool, buyer, amount0, amount1) is Ok,
        holders.no_duplicates(),
        holders.contains(pool.creator),
        holders.contains(buyer),
    ensures
        payment(book, pool, buyer, amount0, amount1)->Ok_0.held_by(token, holders) == book.held_by(
            token,
            holders,
        ),
{
    let released = book.unreserve(pool.token0, pool.creator, amount0);
    let delivered = released.transfer(pool.token0, pool.creator, buyer, amount0);
    book.lemma_unreserve_keeps_totals(pool.token0, pool.creator, amount0);
    book.lemma_held_by_same_totals(released, token, holders);
    released.lemma_transfer_conserves(pool.token0, pool.creator, buyer, amount0, token, holders);
    delivered.lemma_transfer_conserves(pool.token1, buyer, pool.creator, amount1, token, holders);
}

/// Closing pools creates and destroys nothing and moves nothing between
/// accounts: every account owns of every asset the same before and after,
/// and so does every group of accounts.
pub proof fn lemma_settle_conserves(
    book: Book,
    pools: Map<PoolId, PoolView>,
    ids: Seq<PoolId>,
    token: TokenId,
    holders: Seq<AccountId>,
)
    requires
        settle(book, pools, ids) is Ok,
    ensures
        forall|t: TokenId, w: AccountId| #[trigger]
            settle(book, pools, ids)->Ok_0.total(t, w) == book.total(t, w),
        settle(book, pools, ids)->Ok_0.held_by(token, holders) == book.held_by(token, holders),
    decreases ids.len(),
{
    let after = settle(book, pools, ids)->Ok_0;
    if ids.len() > 0 {
        let earlier = settle(book, pools, ids.drop_last())->Ok_0;
        lemma_settle_conserves(book, pools, ids.drop_last(), token, holders);
        let pool = pools[ids.last()];
        if pool.unswapped0() > 0 {
            earlier.lemma_unreserve_keeps_totals(pool.token0, pool.creator, pool.unswapped0());
        }
        assert forall|t: TokenId, w: AccountId| #[trigger] after.total(t, w) == book.total(
            t,
            w,
        ) by {
            assert(earlier.total(t, w) == book.total(t, w));
        }
    }
    book.lemma_held_by_same_totals(after, token, holders);
}

/// Creating a pool creates and destroys nothing and moves nothing between
/// accounts.
pub proof fn lemma_create_conserves(
    book: Book,
    pool: PoolView,
    token: TokenId,
    holders: Seq<AccountId>,
)
    requires
        book.try_reserve(pool.token0, pool.creator, pool.total0) is Ok,
    ensures
        book.reserve(pool.token0, pool.creator, pool.total0).held_by(token, holders)
            == book.held_by(token, holders),
{
    book.lemma_reserve_keeps_totals(pool.token0, pool.creator, pool.total0);
    book.lemma_held_by_same_totals(
        book.reserve(pool.token0, pool.creator, pool.total0),
        token,
        holders,
    );
}

} // verus!
