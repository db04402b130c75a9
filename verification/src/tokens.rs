//! An in-memory ledger: one line per account and asset, and the guarantee
//! that the units of an asset in circulation always fit in a balance.

use vstd::prelude::*;
use crate::book::{Book, Holding};
use crate::ledger::Ledger;
use crate::types::{AccountId, Balance, LedgerError, TokenId};

verus! {

/// One line of the ledger: what `who` holds of `token`.
#[derive(Clone, Copy)]
struct Account {
    token: TokenId,
    who: AccountId,
    free: Balance,
    reserved: Balance,
}

/// A ledger kept in memory.
///
/// No two lines are for the same account and asset, and for every asset the
/// holdings of all accounts together fit in a `Balance`. The second is what
/// lets a transfer credit its receiver without a check for overflow.
pub struct Tokens {
    accounts: Vec<Account>,
}

spec fn is_for(line: Account, token: TokenId, who: AccountId) -> bool {
    line.token == token && line.who == who
}

spec fn distinct(lines: Seq<Account>) -> bool {
    forall|i: int, j: int|
        #![trigger lines[i], lines[j]]
        0 <= i < j < lines.len() ==> !is_for(lines[j], lines[i].token, lines[i].who)
}

spec fn listed(lines: Seq<Account>, token: TokenId, who: AccountId) -> bool {
    exists|i: int| 0 <= i < lines.len() && #[trigger] is_for(lines[i], token, who)
}

spec fn slot(lines: Seq<Account>, token: TokenId, who: AccountId) -> int {
    choose|i: int| 0 <= i < lines.len() && #[trigger] is_for(lines[i], token, who)
}

spec fn holding(line: Account) -> Holding {
    Holding { free: line.free as nat, reserved: line.reserved as nat }
}

spec fn holding_of(lines: Seq<Account>, token: TokenId, who: AccountId) -> Holding {
    if listed(lines, token, who) {
        holding(lines[slot(lines, token, who)])
    } else {
        Holding { free: 0, reserved: 0 }
    }
}

spec fn book_of(lines: Seq<Account>) -> Book {
    Book { holdings: |token: TokenId, who: AccountId| holding_of(lines, token, who) }
}

/// What a line adds to the circulation of `token`.
spec fn worth(line: Account, token: TokenId) -> nat {
    if line.token == token {
        (line.free + line.reserved) as nat
    } else {
        0
    }
}

/// The units of `token` held on all lines together.
spec fn issued(lines: Seq<Account>, token: TokenId) -> nat
    decreases lines.len(),
{
    if lines.len() == 0 {
        0
    } else {
        issued(lines.drop_last(), token) + worth(lines.last(), token)
    }
}

spec fn bounded(lines: Seq<Account>) -> bool {
    forall|token: TokenId| #[trigger] issued(lines, token) <= Balance::MAX
}

proof fn lemma_slot(lines: Seq<Account>, i: int)
    requires
        distinct(lines),
        0 <= i < lines.len(),
    ensures
        listed(lines, lines[i].token, lines[i].who),
        slot(lines, lines[i].token, lines[i].who) == i,
        holding_of(lines, lines[i].token, lines[i].who) == holding(lines[i]),
{
    assert(is_for(lines[i], lines[i].token, lines[i].who));
    let s = slot(lines, lines[i].token, lines[i].who);
    assert(is_for(lines[s], lines[i].token, lines[i].who));
    if s < i {
        assert(!is_for(lines[i], lines[s].token, lines[s].who));
    } else if i < s {
        assert(!is_for(lines[s], lines[i].token, lines[i].who));
    }
}

proof fn lemma_issued_update(lines: Seq<Account>, i: int, line: Account, token: TokenId)
    requires
        0 <= i < lines.len(),
    ensures
        issued(lines.update(i, line), token) == issued(lines, token) + worth(line, token) - worth(
            lines[i],
            token,
        ),
    decreases lines.len(),
{
    let updated = lines.update(i, line);
    if i == lines.len() - 1 {
        assert(updated.drop_last() =~= lines.drop_last());
    } else {
        assert(updated.drop_last() =~= lines.drop_last().update(i, line));
        lemma_issued_update(lines.drop_last(), i, line, token);
    }
}

proof fn lemma_issued_push(lines: Seq<Account>, line: Account, token: TokenId)
    ensures
        issued(lines.push(line), token) == issued(lines, token) + worth(line, token),
{
    assert(lines.push(line).drop_last() =~= lines);
}

proof fn lemma_issued_covers_one(lines: Seq<Account>, i: int, token: TokenId)
    requires
        0 <= i < lines.len(),
    ensures
        worth(lines[i], token) <= issued(lines, token),
    decreases lines.len(),
{
    if i < lines.len() - 1 {
        lemma_issued_covers_one(lines.drop_last(), i, token);
    }
}

proof fn lemma_issued_covers_two(lines: Seq<Account>, i: int, j: int, token: TokenId)
    requires
        0 <= i < j < lines.len(),
    ensures
        worth(lines[i], token) + worth(lines[j], token) <= issued(lines, token),
    decreases lines.len(),
{
    if j < lines.len() - 1 {
        lemma_issued_covers_two(lines.drop_last(), i, j, token);
    } else {
        lemma_issued_covers_one(lines.drop_last(), i, token);
    }
}

proof fn lemma_issued_prefix(lines: Seq<Account>, n: int, token: TokenId)
    requires
        0 <= n <= lines.len(),
    ensures
        issued(lines.take(n), token) <= issued(lines, token),
    decreases lines.len() - n,
{
    if n < lines.len() {
        lemma_issued_prefix(lines, n + 1, token);
        assert(lines.take(n + 1).drop_last() =~= lines.take(n));
    } else {
        assert(lines.take(n) =~= lines);
    }
}

/// Rewriting the amounts of a line rewrites one holding of the book.
proof fn lemma_book_update(lines: Seq<Account>, i: int, line: Account)
    requires
        distinct(lines),
        0 <= i < lines.len(),
        is_for(line, lines[i].token, lines[i].who),
    ensures
        distinct(lines.update(i, line)),
        book_of(lines.update(i, line)) == book_of(lines).with(line.token, line.who, holding(line)),
{
    let updated = lines.update(i, line);
    assert(distinct(updated)) by {
        assert forall|a: int, b: int|
            #![trigger updated[a], updated[b]]
            0 <= a < b < updated.len() implies !is_for(
            updated[b],
            updated[a].token,
            updated[a].who,
        ) by {
            assert(!is_for(lines[b], lines[a].token, lines[a].who));
        }
    }
    let target = book_of(lines).with(line.token, line.who, holding(line));
    assert forall|token: TokenId, who: AccountId| #[trigger]
        (book_of(updated).holdings)(token, who) == (target.holdings)(token, who) by {
        if listed(lines, token, who) {
            let k = slot(lines, token, who);
            assert(is_for(updated[k], token, who));
            lemma_slot(updated, k);
            if k != i {
                assert(updated[k] == lines[k]);
                if is_for(line, token, who) {
                    lemma_slot(lines, i);
                }
            }
        } else {
            if listed(updated, token, who) {
                let k = slot(updated, token, who);
                assert(is_for(lines[k], token, who));
            }
            if is_for(line, token, who) {
                assert(is_for(lines[i], token, who));
            }
        }
    }
    assert(book_of(updated) =~= target);
}

/// A line for an account and asset not yet listed adds one holding to the
/// book.
proof fn lemma_book_push(lines: Seq<Account>, line: Account)
    requires
        distinct(lines),
        !listed(lines, line.token, line.who),
    ensures
        distinct(lines.push(line)),
        book_of(lines.push(line)) == book_of(lines).with(line.token, line.who, holding(line)),
{
    let pushed = lines.push(line);
    let last = lines.len() as int;
    assert(distinct(pushed)) by {
        assert forall|a: int, b: int|
            #![trigger pushed[a], pushed[b]]
            0 <= a < b < pushed.len() implies !is_for(
            pushed[b],
            pushed[a].token,
            pushed[a].who,
        ) by {
            if b < last {
                assert(!is_for(lines[b], lines[a].token, lines[a].who));
            } else {
                assert(!is_for(lines[a], line.token, line.who));
            }
        }
    }
    let target = book_of(lines).with(line.token, line.who, holding(line));
    assert forall|token: TokenId, who: AccountId| #[trigger]
        (book_of(pushed).holdings)(token, who) == (target.holdings)(token, who) by {
        if is_for(line, token, who) {
            assert(pushed[last] == line);
            lemma_slot(pushed, last);
        } else if listed(lines, token, who) {
            let k = slot(lines, token, who);
            assert(pushed[k] == lines[k]);
            lemma_slot(pushed, k);
        } else {
            if listed(pushed, token, who) {
                let k = slot(pushed, token, who);
                if k < last {
                    assert(is_for(lines[k], token, who));
                }
            }
        }
    }
    assert(book_of(pushed) =~= target);
}

proof fn lemma_empty_book_holds_nothing(token: TokenId, holders: Seq<AccountId>)
    ensures
        Book::empty().held_by(token, holders) == 0,
    decreases holders.len(),
{
    if holders.len() > 0 {
        lemma_empty_book_holds_nothing(token, holders.drop_last());
    }
}

proof fn lemma_held_within_issued(lines: Seq<Account>, token: TokenId, holders: Seq<AccountId>)
    requires
        distinct(lines),
        holders.no_duplicates(),
    ensures
        book_of(lines).held_by(token, holders) <= issued(lines, token),
    decreases lines.len(),
{
    if lines.len() == 0 {
        assert(book_of(lines) =~= Book::empty());
        lemma_empty_book_holds_nothing(token, holders);
    } else {
        let front = lines.drop_last();
        let last = lines.last();
        assert(distinct(front)) by {
            assert forall|a: int, b: int|
                #![trigger front[a], front[b]]
                0 <= a < b < front.len() implies !is_for(
                front[b],
                front[a].token,
                front[a].who,
            ) by {
                assert(!is_for(lines[b], lines[a].token, lines[a].who));
            }
        }
        assert(!listed(front, last.token, last.who)) by {
            if listed(front, last.token, last.who) {
                let k = slot(front, last.token, last.who);
                assert(is_for(lines[k], last.token, last.who));
                assert(!is_for(lines[lines.len() - 1], lines[k].token, lines[k].who));
            }
        }
        assert(front.push(last) =~= lines);
        lemma_book_push(front, last);
        lemma_held_within_issued(front, token, holders);
        book_of(front).lemma_held_by_with(last.token, last.who, holding(last), token, holders);
    }
}

impl Tokens {
    /// A ledger on which nobody holds anything.
    pub fn new() -> (tokens: Tokens)
        ensures
            tokens.wf(),
            tokens.book() == Book::empty(),
            forall|token: TokenId| #[trigger] tokens.issuance(token) == 0,
    {
        let tokens = Tokens { accounts: Vec::new() };
        assert(book_of(tokens.accounts@) =~= Book::empty());
        tokens
    }

    /// The line for `who` and `token`, if there is one.
    fn position(&self, token: TokenId, who: AccountId) -> (found: Option<usize>)
        requires
            self.wf(),
        ensures
            match found {
                Some(i) => i < self.accounts.len() && is_for(self.accounts[i as int], token, who)
                    && self.book().holding(token, who) == holding(self.accounts[i as int]),
                None => !listed(self.accounts@, token, who) && self.book().holding(token, who)
                    == (Holding { free: 0, reserved: 0 }),
            },
    {
        let mut i: usize = 0;
        while i < self.accounts.len()
            invariant
                i <= self.accounts.len(),
                self.wf(),
                forall|k: int| 0 <= k < i ==> !#[trigger] is_for(self.accounts[k], token, who),
            decreases self.accounts.len() - i,
        {
            let line = self.accounts[i];
            if line.token == token && line.who == who {
                proof {
                    lemma_slot(self.accounts@, i as int);
                }
                return Some(i);
            }
            i += 1;
        }
        None
    }

    /// The spendable balance of `who` in `token`.
    pub fn free_balance(&self, token: TokenId, who: AccountId) -> (amount: Balance)
        requires
            self.wf(),
        ensures
            amount == self.book().free(token, who),
    {
        match self.position(token, who) {
            Some(i) => self.accounts[i].free,
            None => 0,
        }
    }

    /// The reserved balance of `who` in `token`.
    pub fn reserved_balance(&self, token: TokenId, who: AccountId) -> (amount: Balance)
        requires
            self.wf(),
        ensures
            amount == self.book().reserved(token, who),
    {
        match self.position(token, who) {
            Some(i) => self.accounts[i].reserved,
            None => 0,
        }
    }

    /// Everything `who` owns of `token`, spendable or not.
    pub fn total_balance(&self, token: TokenId, who: AccountId) -> (amount: Balance)
        requires
            self.wf(),
        ensures
            amount == self.book().total(token, who),
    {
        match self.position(token, who) {
            Some(i) => {
                let line = self.accounts[i];
                proof {
                    lemma_issued_covers_one(self.accounts@, i as int, token);
                }
                line.free + line.reserved
            },
            None => 0,
        }
    }

    /// Whether `who` could reserve `value` of `token` now.
    pub fn can_reserve(&self, token: TokenId, who: AccountId, value: Balance) -> (possible: bool)
        requires
            self.wf(),
        ensures
            possible == (self.book().try_reserve(token, who, value as nat) is Ok),
    {
        self.free_balance(token, who) >= value
    }

    /// The units of `token` in circulation.
    pub fn total_issuance(&self, token: TokenId) -> (amount: Balance)
        requires
            self.wf(),
        ensures
            amount == self.issuance(token),
    {
        let mut sum: Balance = 0;
        let mut i: usize = 0;
        while i < self.accounts.len()
            invariant
                i <= self.accounts.len(),
                self.wf(),
                sum == issued(self.accounts@.take(i as int), token),
            decreases self.accounts.len() - i,
        {
            let line = self.accounts[i];
            proof {
                lemma_issued_prefix(self.accounts@, i + 1, token);
                assert(self.accounts@.take(i + 1).drop_last() =~= self.accounts@.take(i as int));
                lemma_issued_covers_one(self.accounts@, i as int, line.token);
            }
            if line.token == token {
                sum = sum + (line.free + line.reserved);
            }
            i += 1;
        }
        assert(self.accounts@.take(i as int) =~= self.accounts@);
        sum
    }

    /// Puts `amount` new units of `token` into the free balance of `who`,
    /// unless the units in circulation would then no longer fit in a
    /// balance: in that case nothing changes and the result is `false`.
    pub fn deposit(&mut self, token: TokenId, who: AccountId, amount: Balance) -> (done: bool)
        requires
            old(self).wf(),
        ensures
            final(self).wf(),
            done == (old(self).issuance(token) + amount <= Balance::MAX),
            done ==> final(self).book() == old(self).book().deposit(token, who, amount as nat),
            done ==> final(self).issuance(token) == old(self).issuance(token) + amount,
            !done ==> final(self).book() == old(self).book(),
            !done ==> final(self).issuance(token) == old(self).issuance(token),
            forall|other: TokenId|
                other != token ==> #[trigger] final(self).issuance(other) == old(self).issuance(
                    other,
                ),
    {
        let circulating = self.total_issuance(token);
        if amount > Balance::MAX - circulating {
            return false;
        }
        let ghost before = self.accounts@;
        match self.position(token, who) {
            Some(i) => {
                let line = self.accounts[i];
                proof {
                    lemma_issued_covers_one(before, i as int, token);
                }
                let credited = Account { free: line.free + amount, ..line };
                self.accounts.set(i, credited);
                proof {
                    lemma_book_update(before, i as int, credited);
                    assert forall|t: TokenId| #[trigger]
                        issued(self.accounts@, t) == issued(before, t) + (if t == token {
                            amount as int
                        } else {
                            0
                        }) by {
                        lemma_issued_update(before, i as int, credited, t);
                    }
                }
            },
            None => {
                let opened = Account { token, who, free: amount, reserved: 0 };
                self.accounts.push(opened);
                proof {
                    lemma_book_push(before, opened);
                    assert forall|t: TokenId| #[trigger]
                        issued(self.accounts@, t) == issued(before, t) + (if t == token {
                            amount as int
                        } else {
                            0
                        }) by {
                        lemma_issued_push(before, opened, t);
                    }
                }
            },
        }
        true
    }

    /// What any group of distinct accounts holds of an asset is part of that
    /// asset's circulation.
    pub proof fn lemma_holders_within_issuance(&self, token: TokenId, holders: Seq<AccountId>)
        requires
            self.wf(),
            holders.no_duplicates(),
        ensures
            self.book().held_by(token, holders) <= self.issuance(token),
    {
        lemma_held_within_issued(self.accounts@, token, holders);
    }
}

impl Ledger for Tokens {
    closed spec fn book(&self) -> Book {
        book_of(self.accounts@)
    }

    /// What all accounts hold of `token`, free and reserved.
    closed spec fn issuance(&self, token: TokenId) -> nat {
        issued(self.accounts@, token)
    }

    closed spec fn wf(&self) -> bool {
        distinct(self.accounts@) && bounded(self.accounts@)
    }

    fn reserve(&mut self, token: TokenId, who: AccountId, amount: Balance) -> (outcome: Result<
        (),
        LedgerError,
    >) {
        let ghost before = self.accounts@;
        match self.position(token, who) {
            Some(i) => {
                let line = self.accounts[i];
                if line.free < amount {
                    return Err(LedgerError::InsufficientBalance);
                }
                proof {
                    lemma_issued_covers_one(before, i as int, token);
                }
                let moved = Account {
                    free: line.free - amount,
                    reserved: line.reserved + amount,
                    ..line
                };
                self.accounts.set(i, moved);
                proof {
                    lemma_book_update(before, i as int, moved);
                    assert forall|t: TokenId| #[trigger]
                        issued(self.accounts@, t) == issued(before, t) by {
                        lemma_issued_update(before, i as int, moved, t);
                    }
                }
                Ok(())
            },
            None => {
                if amount > 0 {
                    return Err(LedgerError::InsufficientBalance);
                }
                assert(book_of(before).reserve(token, who, 0) =~= book_of(before));
                Ok(())
            },
        }
    }

    fn unreserve(&mut self, token: TokenId, who: AccountId, amount: Balance) -> (outcome: Result<
        (),
        LedgerError,
    >) {
        let ghost before = self.accounts@;
        match self.position(token, who) {
            Some(i) => {
                let line = self.accounts[i];
                if line.reserved < amount {
                    return Err(LedgerError::InsufficientReserved);
                }
                proof {
                    lemma_issued_covers_one(before, i as int, token);
                }
                let moved = Account {
                    free: line.free + amount,
                    reserved: line.reserved - amount,
                    ..line
                };
                self.accounts.set(i, moved);
                proof {
                    lemma_book_update(before, i as int, moved);
                    assert forall|t: TokenId| #[trigger]
                        issued(self.accounts@, t) == issued(before, t) by {
                        lemma_issued_update(before, i as int, moved, t);
                    }
                }
                Ok(())
            },
            None => {
                if amount > 0 {
                    return Err(LedgerError::InsufficientReserved);
                }
                assert(book_of(before).unreserve(token, who, 0) =~= book_of(before));
                Ok(())
            },
        }
    }

    fn transfer(
        &mut self,
        token: TokenId,
        from: AccountId,
        to: AccountId,
        amount: Balance,
    ) -> (outcome: Result<(), LedgerError>) {
        let ghost before = self.accounts@;
        let source = match self.position(token, from) {
            Some(i) => i,
            None => {
                if amount > 0 {
                    return Err(LedgerError::InsufficientBalance);
                }
                assert(book_of(before).transfer(token, from, to, 0) =~= book_of(before));
                return Ok(());
            },
        };
        let line = self.accounts[source];
        if line.free < amount {
            return Err(LedgerError::InsufficientBalance);
        }
        if from == to {
            assert(book_of(before).transfer(token, from, to, amount as nat) =~= book_of(before));
            return Ok(());
        }
        let target = self.position(token, to);
        let debited = Account { free: line.free - amount, ..line };
        self.accounts.set(source, debited);
        let ghost between = self.accounts@;
        proof {
            lemma_book_update(before, source as int, debited);
            assert forall|t: TokenId| #[trigger]
                issued(between, t) == issued(before, t) - (if t == token {
                    amount as int
                } else {
                    0
                }) by {
                lemma_issued_update(before, source as int, debited, t);
            }
        }
        match target {
            Some(j) => {
                let receiver = self.accounts[j];
                proof {
                    if source < j {
                        lemma_issued_covers_two(before, source as int, j as int, token);
                    } else {
                        lemma_issued_covers_two(before, j as int, source as int, token);
                    }
                }
                let credited = Account { free: receiver.free + amount, ..receiver };
                self.accounts.set(j, credited);
                proof {
                    lemma_slot(between, j as int);
                    lemma_book_update(between, j as int, credited);
                    assert forall|t: TokenId| #[trigger]
                        issued(self.accounts@, t) == issued(before, t) by {
                        lemma_issued_update(between, j as int, credited, t);
                    }
                }
            },
            None => {
                let opened = Account { token, who: to, free: amount, reserved: 0 };
                proof {
                    assert(!listed(between, token, to)) by {
                        if listed(between, token, to) {
                            let k = slot(between, token, to);
                            assert(is_for(before[k], token, to));
                        }
                    }
                }
                self.accounts.push(opened);
                proof {
                    lemma_book_push(between, opened);
                    assert forall|t: TokenId| #[trigger]
                        issued(self.accounts@, t) == issued(before, t) by {
                        lemma_issued_push(between, opened, t);
                    }
                }
            },
        }
        Ok(())
    }
}

} // verus!
