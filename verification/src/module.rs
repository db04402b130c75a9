//! Pool storage and the three operations on it: the registry that creates
//! pools, the engine that swaps against them, and the scheduler that closes
//! them when their end block is finalized.
//!
//! The balances are kept by a [`Ledger`] that every operation is handed.
//! What an operation asks of it are the movements that the pool itself
//! hands out. An operation either happens as a whole, in the storage and on
//! the ledger, or is rejected and changes neither.

use std::collections::HashMap;
use vstd::prelude::*;
use crate::book::Book;
use crate::ledger::{perform, Ledger};
use crate::pool::{accumulate, id_after, PoolDetails, PoolView};
use crate::state::{
    closed_events, lemma_settle_fails_early, lemma_settle_one, payment, release, settle, Event,
    State,
};
use crate::types::{AccountId, Balance, BlockNumber, Error, LedgerError, PoolId, TokenId};

verus! {

/// The storage of the pools.
///
/// Its mathematical value is a [`State`]; `wf` says that this state is
/// consistent. Pools waiting for a block are kept in a bucket under that
/// block, so closing them costs in proportion to their number and not to
/// the number of pools stored.
pub struct FixedSwap {
    next_pool_id: PoolId,
    pools: HashMap<PoolId, PoolDetails>,
    swaps: HashMap<u128, (Balance, Balance)>,
    pool_end_at: HashMap<BlockNumber, Vec<PoolId>>,
}

/// The key under which the swaps of `who` in pool `id` are recorded.
spec fn swap_key(id: PoolId, who: AccountId) -> u128 {
    (id * 0x1_0000_0000_0000_0000 + who) as u128
}

spec fn pools_of(stored: Map<PoolId, PoolDetails>) -> Map<PoolId, PoolView> {
    Map::new(|id: PoolId| stored.contains_key(id), |id: PoolId| stored[id]@)
}

spec fn swaps_of(stored: Map<u128, (Balance, Balance)>) -> spec_fn(PoolId, AccountId) -> (
    nat,
    nat,
) {
    |id: PoolId, who: AccountId|
        if stored.contains_key(swap_key(id, who)) {
            (stored[swap_key(id, who)].0 as nat, stored[swap_key(id, who)].1 as nat)
        } else {
            (0nat, 0nat)
        }
}

spec fn due_of(stored: Map<BlockNumber, Vec<PoolId>>) -> spec_fn(BlockNumber) -> Seq<PoolId> {
    |block: BlockNumber|
        if stored.contains_key(block) {
            stored[block]@
        } else {
            Seq::<PoolId>::empty()
        }
}

proof fn lemma_swap_key_injective(a: PoolId, v: AccountId, b: PoolId, w: AccountId)
    ensures
        swap_key(a, v) == swap_key(b, w) ==> a == b && v == w,
{
}

fn key_of(id: PoolId, who: AccountId) -> (key: u128)
    ensures
        key == swap_key(id, who),
{
    (id as u128) * 0x1_0000_0000_0000_0000u128 + (who as u128)
}

fn holds(bucket: &Vec<PoolId>, id: PoolId) -> (found: bool)
    ensures
        found == bucket@.contains(id),
{
    let mut i: usize = 0;
    while i < bucket.len()
        invariant
            i <= bucket.len(),
            forall|k: int| 0 <= k < i ==> bucket[k] != id,
        decreases bucket.len() - i,
    {
        if bucket[i] == id {
            return true;
        }
        i += 1;
    }
    false
}

impl View for FixedSwap {
    type V = State;

    closed spec fn view(&self) -> State {
        State {
            next_pool_id: self.next_pool_id,
            pools: pools_of(self.pools@),
            swaps: swaps_of(self.swaps@),
            due: due_of(self.pool_end_at@),
        }
    }
}

impl FixedSwap {
    /// The stored state is consistent.
    pub open spec fn wf(&self) -> bool {
        self@.inv()
    }

    /// Storage without pools.
    pub fn new() -> (module: FixedSwap)
        ensures
            module.wf(),
            module@ == State::genesis(),
    {
        let module = FixedSwap {
            next_pool_id: 0,
            pools: HashMap::new(),
            swaps: HashMap::new(),
            pool_end_at: HashMap::new(),
        };
        assert(module@ =~= State::genesis());
        module
    }

    /// The identifier the next pool gets.
    pub fn next_pool_id(&self) -> (id: PoolId)
        ensures
            id == self@.next_pool_id,
    {
        self.next_pool_id
    }

    /// The pool stored under `id`, or `PoolNotFound`.
    pub fn pools(&self, id: PoolId) -> (found: Result<&PoolDetails, Error>)
        ensures
            match found {
                Ok(pool) => self@.pools.contains_key(id) && pool@ == self@.pools[id],
                Err(e) => !self@.pools.contains_key(id) && e == Error::PoolNotFound,
            },
    {
        match self.pools.get(&id) {
            Some(pool) => Ok(pool),
            None => Err(Error::PoolNotFound),
        }
    }

    /// What `who` received from and paid into pool `id` so far.
    pub fn swaps(&self, id: PoolId, who: AccountId) -> (record: (Balance, Balance))
        ensures
            (record.0 as nat, record.1 as nat) == self@.swapped_by(id, who),
    {
        let key = key_of(id, who);
        match self.swaps.get(&key) {
            Some(record) => *record,
            None => (0, 0),
        }
    }

    /// `Some` if pool `id` waits for `block`, `None` if it does not.
    pub fn pool_end_at(&self, block: BlockNumber, id: PoolId) -> (waiting: Option<()>)
        ensures
            waiting is Some <==> self@.due_at(block).contains(id),
    {
        match self.pool_end_at.get(&block) {
            Some(bucket) => {
                if holds(bucket, id) {
                    Some(())
                } else {
                    None
                }
            },
            None => None,
        }
    }

    /// How many pools wait for `block`.
    pub fn due_count(&self, block: BlockNumber) -> (count: usize)
        ensures
            count == self@.due_at(block).len(),
    {
        match self.pool_end_at.get(&block) {
            Some(bucket) => bucket.len(),
            None => 0,
        }
    }

    /// Creates a pool at block `now`: reserves `total0` of `token0` from
    /// `creator`, stores the pool under the next identifier and sets it to
    /// wait for its end block.
    ///
    /// Rejected with `InvalidDuration` where `duration` is zero, and with
    /// the ledger's error where the creator's free balance does not cover
    /// `total0`.
    pub fn create<L: Ledger>(
        &mut self,
        ledger: &mut L,
        creator: AccountId,
        name: Vec<u8>,
        token0: TokenId,
        token1: TokenId,
        total0: Balance,
        total1: Balance,
        duration: BlockNumber,
        now: BlockNumber,
    ) -> (outcome: Result<Event, Error>)
        requires
            old(self).wf(),
            old(ledger).wf(),
        ensures
            final(self).wf(),
            final(ledger).wf(),
            forall|any: TokenId| #[trigger]
                final(ledger).issuance(any) == old(ledger).issuance(any),
            ({
                let pool = PoolView {
                    name: name@,
                    creator,
                    token0,
                    token1,
                    total0: total0 as nat,
                    total1: total1 as nat,
                    swapped0: 0,
                    swapped1: 0,
                    duration: duration as nat,
                    start_at: now as nat,
                };
                &&& outcome == old(self)@.create_outcome(old(ledger).book(), pool)
                &&& outcome is Ok ==> {
                    &&& final(self)@ == old(self)@.create(pool)
                    &&& final(self)@.due_at(pool.end_at() as BlockNumber).contains(
                        old(self)@.next_pool_id,
                    )
                    &&& final(ledger).book() == old(ledger).book().reserve(
                        token0,
                        creator,
                        total0 as nat,
                    )
                }
                &&& outcome is Err ==> {
                    &&& final(self)@ == old(self)@
                    &&& final(ledger).book() == old(ledger).book()
                }
            }),
    {
        let pool = match PoolDetails::create(
            name,
            creator,
            token0,
            token1,
            total0,
            total1,
            duration,
            now,
        ) {
            Err(e) => {
                return Err(e);
            },
            Ok(pool) => pool,
        };
        match perform(ledger, pool.escrow()) {
            Err(e) => {
                return Err(Error::Ledger(e));
            },
            Ok(()) => {},
        }
        let id = self.next_pool_id;
        let end_at = pool.end_at();
        let ghost before = self@;
        let ghost created = pool@;
        let replaces = self.pools.contains_key(&id);
        self.pools.insert(id, pool);
        let mut bucket = match self.pool_end_at.remove(&end_at) {
            Some(waiting) => waiting,
            None => Vec::new(),
        };
        assert(bucket@ == before.due_at(end_at));
        if !(replaces && holds(&bucket, id)) {
            proof {
                if bucket@.contains(id) {
                    let i = choose|i: int| 0 <= i < bucket@.len() && bucket@[i] == id;
                    assert(before.pools.contains_key(before.due_at(end_at)[i]));
                }
            }
            bucket.push(id);
        }
        self.pool_end_at.insert(end_at, bucket);
        self.next_pool_id = id_after(id);
        proof {
            assert(self@.pools =~= before.create(created).pools);
            assert(self@ =~= before.create(created));
            before.lemma_create_inv(created);
            assert(bucket@.contains(id)) by {
                if !before.due_at(end_at).contains(id) {
                    assert(bucket@[bucket@.len() - 1] == id);
                }
            }
        }
        Ok(Event::PoolCreated(id, creator))
    }

    /// Swaps at block `now`: `buyer` pays `amount1` of the pool's `token1`
    /// to the creator and receives what that buys of `token0` at the pool's
    /// rate, out of the creator's reserve.
    ///
    /// Rejected with `PoolNotFound`, with `PoolExpired` from the pool's end
    /// block on, with `DivisionByZero` where the pool's `total1` is zero,
    /// and with the ledger's error where the reserve or the buyer's free
    /// balance does not suffice.
    pub fn swap<L: Ledger>(
        &mut self,
        ledger: &mut L,
        buyer: AccountId,
        pool_id: PoolId,
        amount1: Balance,
        now: BlockNumber,
    ) -> (outcome: Result<Event, Error>)
        requires
            old(self).wf(),
            old(ledger).wf(),
        ensures
            final(self).wf(),
            final(ledger).wf(),
            forall|any: TokenId| #[trigger]
                final(ledger).issuance(any) == old(ledger).issuance(any),
            outcome == old(self)@.swap_outcome(
                old(ledger).book(),
                buyer,
                pool_id,
                amount1 as nat,
                now,
            ),
            outcome is Ok ==> {
                let pool = old(self)@.pools[pool_id];
                let amount0 = pool.quote(amount1 as nat);
                &&& final(self)@ == old(self)@.swap(pool_id, buyer, amount0, amount1 as nat)
                &&& payment(old(ledger).book(), pool, buyer, amount0, amount1 as nat) == Ok::<
                    Book,
                    LedgerError,
                >(final(ledger).book())
            },
            outcome is Err ==> {
                &&& final(self)@ == old(self)@
                &&& final(ledger).book() == old(ledger).book()
            },
    {
        let ghost before = self@;
        let ghost origin = ledger.book();
        let (amount0, release, deliver, pay) = match self.pools.get(&pool_id) {
            None => {
                return Err(Error::PoolNotFound);
            },
            Some(pool) => {
                if !pool.is_open(now) {
                    return Err(Error::PoolExpired);
                }
                match pool.quote(amount1) {
                    Err(e) => {
                        return Err(e);
                    },
                    Ok(amount0) => {
                        let movements = pool.payment(buyer, amount0, amount1);
                        (amount0, movements.0, movements.1, movements.2)
                    },
                }
            },
        };
        match perform(ledger, release) {
            Err(e) => {
                return Err(Error::Ledger(e));
            },
            Ok(()) => {},
        }
        let ghost released = ledger.book();
        match perform(ledger, deliver) {
            Err(e) => {
                proof {
                    origin.lemma_undo(release);
                }
                let _ = perform(ledger, release.undo());
                return Err(Error::Ledger(e));
            },
            Ok(()) => {},
        }
        match perform(ledger, pay) {
            Err(e) => {
                proof {
                    released.lemma_undo(deliver);
                    origin.lemma_undo(release);
                }
                let _ = perform(ledger, deliver.undo());
                let _ = perform(ledger, release.undo());
                return Err(Error::Ledger(e));
            },
            Ok(()) => {},
        }
        match self.pools.remove(&pool_id) {
            Some(mut pool) => {
                pool.record_swap(amount0, amount1);
                self.pools.insert(pool_id, pool);
            },
            None => {},
        }
        let key = key_of(pool_id, buyer);
        let so_far = match self.swaps.get(&key) {
            Some(record) => *record,
            None => (0, 0),
        };
        self.swaps.insert(key, accumulate(so_far, amount0, amount1));
        proof {
            let after = before.swap(pool_id, buyer, amount0 as nat, amount1 as nat);
            assert(self@.pools =~= after.pools);
            assert forall|p: PoolId, w: AccountId| #[trigger]
                (self@.swaps)(p, w) == (after.swaps)(p, w) by {
                lemma_swap_key_injective(p, w, pool_id, buyer);
            }
            assert(self@ =~= after);
            before.lemma_swap_inv(pool_id, buyer, amount0 as nat, amount1 as nat);
        }
        Ok(Event::PoolSwapped(pool_id, buyer))
    }

    /// Puts back into the creators' reserves what the first `count` pools of
    /// `ids` had released.
    fn reinstate<L: Ledger>(
        &self,
        ledger: &mut L,
        ids: &Vec<PoolId>,
        count: usize,
        Ghost(origin): Ghost<Book>,
    )
        requires
            old(ledger).wf(),
            count <= ids.len(),
            forall|k: int| 0 <= k < count ==> self@.pools.contains_key(#[trigger] ids[k]),
            settle(origin, self@.pools, ids@.take(count as int)) == Ok::<Book, LedgerError>(
                old(ledger).book(),
            ),
        ensures
            final(ledger).wf(),
            final(ledger).book() == origin,
            forall|any: TokenId| #[trigger]
                final(ledger).issuance(any) == old(ledger).issuance(any),
    {
        let mut j: usize = count;
        while j > 0
            invariant
                j <= count <= ids.len(),
                ledger.wf(),
                forall|any: TokenId| #[trigger] ledger.issuance(any) == old(ledger).issuance(any),
                forall|k: int| 0 <= k < count ==> self@.pools.contains_key(#[trigger] ids[k]),
                settle(origin, self@.pools, ids@.take(j as int)) == Ok::<Book, LedgerError>(
                    ledger.book(),
                ),
            decreases j,
        {
            j -= 1;
            let id = ids[j];
            let ghost earlier = settle(origin, self@.pools, ids@.take(j as int));
            proof {
                assert(ids@.take(j + 1).drop_last() =~= ids@.take(j as int));
                assert(ids@.take(j + 1).last() == id);
                assert(self@.pools.contains_key(ids[j as int]));
                assert(earlier is Ok);
                assert(release(earlier->Ok_0, self@.pools[id]) == Ok::<Book, LedgerError>(
                    ledger.book(),
                ));
            }
            match self.pools.get(&id) {
                Some(pool) => {
                    match pool.payout() {
                        Some(movement) => {
                            proof {
                                earlier->Ok_0.lemma_undo(movement);
                            }
                            let _ = perform(ledger, movement.undo());
                        },
                        None => {},
                    }
                },
                None => {},
            }
        }
        assert(ids@.take(0) =~= Seq::<PoolId>::empty());
    }

    /// Finalizes block `now`: every pool that waits for it is closed, in
    /// the order of creation. What a pool did not sell is released from its
    /// creator's reserve; the pool's record stays.
    ///
    /// Rejected as a whole with the ledger's error where a creator's reserve
    /// no longer covers what a pool should release.
    ///
    /// The last two clauses spell out the two simplest cases: a block for
    /// which nothing waits always closes, and a block for which one pool
    /// waits closes exactly if that pool's release is carried out.
    pub fn on_finalize<L: Ledger>(&mut self, ledger: &mut L, now: BlockNumber) -> (outcome: Result<
        Vec<Event>,
        Error,
    >)
        requires
            old(self).wf(),
            old(ledger).wf(),
        ensures
            final(self).wf(),
            final(ledger).wf(),
            forall|any: TokenId| #[trigger]
                final(ledger).issuance(any) == old(ledger).issuance(any),
            match settle(old(ledger).book(), old(self)@.pools, old(self)@.due_at(now)) {
                Ok(settled) => {
                    &&& outcome matches Ok(events)
                    &&& events@ == closed_events(old(self)@.due_at(now))
                    &&& final(self)@ == old(self)@.finalize(now)
                    &&& final(ledger).book() == settled
                },
                Err(e) => {
                    &&& outcome == Err::<Vec<Event>, Error>(Error::Ledger(e))
                    &&& final(self)@ == old(self)@
                    &&& final(ledger).book() == old(ledger).book()
                },
            },
            old(self)@.due_at(now).len() == 0 ==> outcome is Ok,
            old(self)@.due_at(now).len() == 1 ==> settle(
                old(ledger).book(),
                old(self)@.pools,
                old(self)@.due_at(now),
            ) == release(old(ledger).book(), old(self)@.pools[old(self)@.due_at(now)[0]]),
    {
        let ghost before = self@;
        let ghost origin = ledger.book();
        proof {
            if before.due_at(now).len() == 1 {
                assert(before.due_at(now) =~= seq![before.due_at(now)[0]]);
                lemma_settle_one(origin, before.pools, before.due_at(now)[0]);
            }
        }
        let mut events: Vec<Event> = Vec::new();
        match self.pool_end_at.get(&now) {
            None => {},
            Some(bucket) => {
                let mut i: usize = 0;
                while i < bucket.len()
                    invariant
                        i <= bucket.len(),
                        self@ == before,
                        before == old(self)@,
                        origin == old(ledger).book(),
                        forall|any: TokenId| #[trigger]
                            ledger.issuance(any) == old(ledger).issuance(any),
                        before.inv(),
                        ledger.wf(),
                        bucket@ == before.due_at(now),
                        settle(origin, before.pools, bucket@.take(i as int)) == Ok::<
                            Book,
                            LedgerError,
                        >(ledger.book()),
                        events@ == closed_events(bucket@.take(i as int)),
                    decreases bucket.len() - i,
                {
                    let id = bucket[i];
                    proof {
                        assert(bucket@.take(i + 1).drop_last() =~= bucket@.take(i as int));
                        assert(bucket@.take(i + 1).last() == id);
                        assert(before.pools.contains_key(before.due_at(now)[i as int]));
                    }
                    match self.pools.get(&id) {
                        Some(pool) => {
                            if let Some(movement) = pool.payout() {
                                match perform(ledger, movement) {
                                    Ok(()) => {},
                                    Err(e) => {
                                        proof {
                                            assert(settle(
                                                origin,
                                                before.pools,
                                                bucket@.take(i + 1),
                                            ) == Err::<Book, LedgerError>(e));
                                            assert forall|k: int|
                                                0 <= k < i implies before.pools.contains_key(
                                                #[trigger] bucket[k],
                                            ) by {
                                                assert(before.pools.contains_key(
                                                    before.due_at(now)[k],
                                                ));
                                            }
                                            lemma_settle_fails_early(
                                                origin,
                                                before.pools,
                                                bucket@,
                                                i + 1,
                                            );
                                        }
                                        self.reinstate(ledger, bucket, i, Ghost(origin));
                                        return Err(Error::Ledger(e));
                                    },
                                }
                            }
                        },
                        None => {},
                    }
                    events.push(Event::PoolClosed(id));
                    proof {
                        assert(events@ =~= closed_events(bucket@.take(i + 1)));
                    }
                    i += 1;
                }
                assert(bucket@.take(i as int) =~= bucket@);
            },
        }
        self.pool_end_at.remove(&now);
        proof {
            assert(self@ =~= before.finalize(now));
            before.lemma_finalize_inv(now);
        }
        Ok(events)
    }
}

} // verus!
