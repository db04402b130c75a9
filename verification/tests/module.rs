use fixed_swap::{Error, Event, FixedSwap, Ledger, LedgerError, PoolDetails, Runtime, Tokens};

const CREATOR: u64 = 0;
const BUYER: u64 = 1;
const OTHER: u64 = 2;
const TOKEN0: u128 = 1;
const TOKEN1: u128 = 2;

fn ledger() -> Tokens {
    let mut tokens = Tokens::new();
    assert!(tokens.deposit(TOKEN0, CREATOR, 100000));
    assert!(tokens.deposit(TOKEN1, BUYER, 100000));
    tokens
}

fn holdings(tokens: &Tokens) -> Vec<(u128, u128)> {
    let mut all = Vec::new();
    for token in [TOKEN0, TOKEN1] {
        for who in [CREATOR, BUYER, OTHER] {
            all.push((tokens.free_balance(token, who), tokens.reserved_balance(token, who)));
        }
    }
    all
}

fn create(
    module: &mut FixedSwap,
    tokens: &mut Tokens,
    total0: u128,
    total1: u128,
    duration: u64,
    now: u64,
) -> Result<Event, Error> {
    module.create(tokens, CREATOR, b"swap".to_vec(), TOKEN0, TOKEN1, total0, total1, duration, now)
}

#[test]
fn new_storage_is_empty() {
    let module = FixedSwap::new();
    assert_eq!(module.next_pool_id(), 0);
    assert_eq!(module.pools(0), Err(Error::PoolNotFound));
    assert_eq!(module.swaps(0, BUYER), (0, 0));
    assert_eq!(module.pool_end_at(0, 0), None);
    assert_eq!(module.due_count(0), 0);
}

#[test]
fn create_reserves_the_escrow() {
    let mut module = FixedSwap::new();
    let mut tokens = ledger();
    assert_eq!(
        create(&mut module, &mut tokens, 100, 200, 50, 7),
        Ok(Event::PoolCreated(0, CREATOR))
    );
    assert_eq!(tokens.reserved_balance(TOKEN0, CREATOR), 100);
    assert_eq!(tokens.free_balance(TOKEN0, CREATOR), 99900);
    assert_eq!(tokens.total_balance(TOKEN0, CREATOR), 100000);
    let pool = module.pools(0).unwrap();
    assert_eq!(pool.start_at, 7);
    assert_eq!(pool.duration, 50);
    assert_eq!(pool.end_at(), 57);
    assert_eq!(module.pool_end_at(57, 0), Some(()));
    assert_eq!(module.pool_end_at(50, 0), None);
    assert_eq!(module.due_count(57), 1);
}

#[test]
fn create_hands_out_identifiers_in_order() {
    let mut module = FixedSwap::new();
    let mut tokens = ledger();
    for expected in 0..5u32 {
        assert_eq!(module.next_pool_id(), expected);
        assert_eq!(
            create(&mut module, &mut tokens, 10, 20, 50, 0),
            Ok(Event::PoolCreated(expected, CREATOR))
        );
    }
    assert_eq!(module.next_pool_id(), 5);
    assert_eq!(module.due_count(50), 5);
    assert_eq!(tokens.reserved_balance(TOKEN0, CREATOR), 50);
}

#[test]
fn create_with_zero_duration_is_rejected() {
    let mut module = FixedSwap::new();
    let mut tokens = ledger();
    let before = holdings(&tokens);
    assert_eq!(create(&mut module, &mut tokens, 100, 200, 0, 0), Err(Error::InvalidDuration));
    assert_eq!(module.next_pool_id(), 0);
    assert_eq!(module.pools(0), Err(Error::PoolNotFound));
    assert_eq!(module.due_count(0), 0);
    assert_eq!(holdings(&tokens), before);
}

#[test]
fn create_beyond_the_free_balance_is_rejected() {
    let mut module = FixedSwap::new();
    let mut tokens = ledger();
    let before = holdings(&tokens);
    assert_eq!(
        create(&mut module, &mut tokens, 100001, 200, 50, 0),
        Err(Error::Ledger(LedgerError::InsufficientBalance))
    );
    assert_eq!(module.next_pool_id(), 0);
    assert_eq!(module.pools(0), Err(Error::PoolNotFound));
    assert_eq!(module.due_count(50), 0);
    assert_eq!(holdings(&tokens), before);
}

#[test]
fn zero_duration_is_reported_before_the_balance() {
    let mut module = FixedSwap::new();
    let mut tokens = ledger();
    assert_eq!(create(&mut module, &mut tokens, 100001, 200, 0, 0), Err(Error::InvalidDuration));
}

#[test]
fn swap_moves_both_assets() {
    let mut module = FixedSwap::new();
    let mut tokens = ledger();
    create(&mut module, &mut tokens, 100, 200, 50, 0).unwrap();
    assert_eq!(module.swap(&mut tokens, BUYER, 0, 20, 0), Ok(Event::PoolSwapped(0, BUYER)));
    assert_eq!(
        holdings(&tokens),
        vec![(99900, 90), (10, 0), (0, 0), (20, 0), (99980, 0), (0, 0)]
    );
    let pool = module.pools(0).unwrap();
    assert_eq!((pool.swapped0, pool.swapped1), (10, 20));
    assert_eq!((pool.total0, pool.total1), (100, 200));
    assert_eq!(module.swaps(0, BUYER), (10, 20));
    assert_eq!(module.swaps(0, OTHER), (0, 0));
    assert_eq!(module.swaps(1, BUYER), (0, 0));
}

#[test]
fn swap_records_add_up_per_buyer() {
    let mut module = FixedSwap::new();
    let mut tokens = ledger();
    assert!(tokens.deposit(TOKEN1, OTHER, 1000));
    create(&mut module, &mut tokens, 100, 200, 50, 0).unwrap();
    module.swap(&mut tokens, BUYER, 0, 20, 1).unwrap();
    module.swap(&mut tokens, OTHER, 0, 50, 2).unwrap();
    module.swap(&mut tokens, BUYER, 0, 7, 3).unwrap();
    assert_eq!(module.swaps(0, BUYER), (13, 27));
    assert_eq!(module.swaps(0, OTHER), (25, 50));
    let pool = module.pools(0).unwrap();
    assert_eq!((pool.swapped0, pool.swapped1), (38, 77));
    assert_eq!(tokens.reserved_balance(TOKEN0, CREATOR), 62);
    assert_eq!(tokens.free_balance(TOKEN1, CREATOR), 77);
}

#[test]
fn swap_is_open_until_the_block_before_the_end() {
    let mut module = FixedSwap::new();
    let mut tokens = ledger();
    create(&mut module, &mut tokens, 100, 200, 50, 0).unwrap();
    assert_eq!(module.swap(&mut tokens, BUYER, 0, 20, 49), Ok(Event::PoolSwapped(0, BUYER)));
}

#[test]
fn swap_is_rejected_from_the_end_block_on() {
    let mut module = FixedSwap::new();
    let mut tokens = ledger();
    create(&mut module, &mut tokens, 100, 200, 50, 0).unwrap();
    let before = holdings(&tokens);
    for now in [50, 51, 1000, u64::MAX] {
        assert_eq!(module.swap(&mut tokens, BUYER, 0, 20, now), Err(Error::PoolExpired));
    }
    assert_eq!(holdings(&tokens), before);
    assert_eq!(module.pools(0).unwrap().swapped1, 0);
    assert_eq!(module.swaps(0, BUYER), (0, 0));
}

#[test]
fn swap_against_a_missing_pool_is_rejected() {
    let mut module = FixedSwap::new();
    let mut tokens = ledger();
    create(&mut module, &mut tokens, 100, 200, 50, 0).unwrap();
    let before = holdings(&tokens);
    assert_eq!(module.swap(&mut tokens, BUYER, 1, 20, 0), Err(Error::PoolNotFound));
    assert_eq!(module.swap(&mut tokens, BUYER, u32::MAX, 20, 0), Err(Error::PoolNotFound));
    assert_eq!(holdings(&tokens), before);
}

#[test]
fn swap_without_a_rate_is_rejected() {
    let mut module = FixedSwap::new();
    let mut tokens = ledger();
    create(&mut module, &mut tokens, 100, 0, 50, 0).unwrap();
    let before = holdings(&tokens);
    assert_eq!(module.swap(&mut tokens, BUYER, 0, 20, 0), Err(Error::DivisionByZero));
    assert_eq!(holdings(&tokens), before);
}

#[test]
fn swap_that_the_buyer_cannot_pay_changes_nothing() {
    let mut module = FixedSwap::new();
    let mut tokens = ledger();
    create(&mut module, &mut tokens, 100, 200, 50, 0).unwrap();
    let before = holdings(&tokens);
    assert_eq!(
        module.swap(&mut tokens, OTHER, 0, 20, 0),
        Err(Error::Ledger(LedgerError::InsufficientBalance))
    );
    assert_eq!(holdings(&tokens), before);
    let pool = module.pools(0).unwrap();
    assert_eq!((pool.swapped0, pool.swapped1), (0, 0));
    assert_eq!(module.swaps(0, OTHER), (0, 0));
}

#[test]
fn swap_beyond_the_reserve_is_rejected() {
    let mut module = FixedSwap::new();
    let mut tokens = ledger();
    create(&mut module, &mut tokens, 100, 200, 50, 0).unwrap();
    let before = holdings(&tokens);
    assert_eq!(
        module.swap(&mut tokens, BUYER, 0, 202, 0),
        Err(Error::Ledger(LedgerError::InsufficientReserved))
    );
    assert_eq!(holdings(&tokens), before);
    assert_eq!(module.swap(&mut tokens, BUYER, 0, 200, 0), Ok(Event::PoolSwapped(0, BUYER)));
    assert_eq!(tokens.reserved_balance(TOKEN0, CREATOR), 0);
    assert_eq!(tokens.free_balance(TOKEN0, BUYER), 100);
}

#[test]
fn swap_by_the_creator_only_releases() {
    let mut module = FixedSwap::new();
    let mut tokens = ledger();
    assert!(tokens.deposit(TOKEN1, CREATOR, 50));
    create(&mut module, &mut tokens, 100, 200, 50, 0).unwrap();
    assert_eq!(module.swap(&mut tokens, CREATOR, 0, 20, 0), Ok(Event::PoolSwapped(0, CREATOR)));
    assert_eq!(tokens.reserved_balance(TOKEN0, CREATOR), 90);
    assert_eq!(tokens.free_balance(TOKEN0, CREATOR), 99910);
    assert_eq!(tokens.free_balance(TOKEN1, CREATOR), 50);
}

#[test]
fn finalize_returns_the_remainder() {
    let mut module = FixedSwap::new();
    let mut tokens = ledger();
    create(&mut module, &mut tokens, 100, 200, 50, 0).unwrap();
    module.swap(&mut tokens, BUYER, 0, 20, 0).unwrap();
    assert_eq!(module.on_finalize(&mut tokens, 50), Ok(vec![Event::PoolClosed(0)]));
    assert_eq!(tokens.reserved_balance(TOKEN0, CREATOR), 0);
    assert_eq!(tokens.free_balance(TOKEN0, CREATOR), 99990);
    assert_eq!(module.pool_end_at(50, 0), None);
    assert_eq!(module.due_count(50), 0);
    let pool = module.pools(0).unwrap();
    assert_eq!((pool.swapped0, pool.swapped1), (10, 20));
}

#[test]
fn finalize_of_a_sold_out_pool_moves_nothing() {
    let mut module = FixedSwap::new();
    let mut tokens = ledger();
    create(&mut module, &mut tokens, 100, 200, 50, 0).unwrap();
    module.swap(&mut tokens, BUYER, 0, 200, 0).unwrap();
    let before = holdings(&tokens);
    assert_eq!(module.on_finalize(&mut tokens, 50), Ok(vec![Event::PoolClosed(0)]));
    assert_eq!(holdings(&tokens), before);
}

#[test]
fn finalize_of_another_block_closes_nothing() {
    let mut module = FixedSwap::new();
    let mut tokens = ledger();
    create(&mut module, &mut tokens, 100, 200, 50, 0).unwrap();
    let before = holdings(&tokens);
    for now in [0, 49, 51, u64::MAX] {
        assert_eq!(module.on_finalize(&mut tokens, now), Ok(vec![]));
    }
    assert_eq!(holdings(&tokens), before);
    assert_eq!(module.pool_end_at(50, 0), Some(()));
}

#[test]
fn finalize_closes_each_pool_once() {
    let mut module = FixedSwap::new();
    let mut tokens = ledger();
    create(&mut module, &mut tokens, 100, 200, 50, 0).unwrap();
    assert_eq!(module.on_finalize(&mut tokens, 50), Ok(vec![Event::PoolClosed(0)]));
    let after = holdings(&tokens);
    assert_eq!(module.on_finalize(&mut tokens, 50), Ok(vec![]));
    assert_eq!(holdings(&tokens), after);
}

#[test]
fn finalize_closes_the_pools_of_one_block_in_order() {
    let mut module = FixedSwap::new();
    let mut tokens = ledger();
    create(&mut module, &mut tokens, 100, 200, 50, 0).unwrap();
    create(&mut module, &mut tokens, 30, 60, 10, 5).unwrap();
    create(&mut module, &mut tokens, 7, 7, 45, 5).unwrap();
    create(&mut module, &mut tokens, 1000, 10, 1, 49).unwrap();
    assert_eq!(module.due_count(50), 3);
    assert_eq!(module.due_count(15), 1);
    module.swap(&mut tokens, BUYER, 2, 3, 6).unwrap();
    assert_eq!(tokens.reserved_balance(TOKEN0, CREATOR), 1134);
    assert_eq!(
        module.on_finalize(&mut tokens, 50),
        Ok(vec![Event::PoolClosed(0), Event::PoolClosed(2), Event::PoolClosed(3)])
    );
    assert_eq!(tokens.reserved_balance(TOKEN0, CREATOR), 30);
    assert_eq!(module.pool_end_at(15, 1), Some(()));
    assert_eq!(module.on_finalize(&mut tokens, 15), Ok(vec![Event::PoolClosed(1)]));
    assert_eq!(tokens.reserved_balance(TOKEN0, CREATOR), 0);
    assert_eq!(tokens.free_balance(TOKEN0, CREATOR), 100000 - 3);
}

#[test]
fn finalize_that_cannot_release_changes_nothing() {
    let mut module = FixedSwap::new();
    let mut tokens = ledger();
    create(&mut module, &mut tokens, 100, 200, 50, 0).unwrap();
    create(&mut module, &mut tokens, 100, 200, 50, 0).unwrap();
    create(&mut module, &mut tokens, 100, 200, 50, 0).unwrap();
    // The first pool sells more than it escrowed, out of the reserve that
    // backs the others.
    module.swap(&mut tokens, BUYER, 0, 250, 0).unwrap();
    assert_eq!(module.pools(0).unwrap().swapped0, 125);
    assert_eq!(tokens.reserved_balance(TOKEN0, CREATOR), 175);
    let before = holdings(&tokens);
    assert_eq!(
        module.on_finalize(&mut tokens, 50),
        Err(Error::Ledger(LedgerError::InsufficientReserved))
    );
    assert_eq!(holdings(&tokens), before);
    assert_eq!(module.due_count(50), 3);
    assert_eq!(module.pool_end_at(50, 1), Some(()));
    // Once the creator has set the missing amount aside again, the block closes.
    assert_eq!(tokens.reserve(TOKEN0, CREATOR, 25), Ok(()));
    assert_eq!(
        module.on_finalize(&mut tokens, 50),
        Ok(vec![Event::PoolClosed(0), Event::PoolClosed(1), Event::PoolClosed(2)])
    );
    assert_eq!(tokens.reserved_balance(TOKEN0, CREATOR), 0);
}

#[test]
fn nothing_is_created_or_destroyed() {
    let mut module = FixedSwap::new();
    let mut tokens = ledger();
    assert!(tokens.deposit(TOKEN1, OTHER, 500));
    let total = |tokens: &Tokens, token: u128| {
        tokens.total_balance(token, CREATOR)
            + tokens.total_balance(token, BUYER)
            + tokens.total_balance(token, OTHER)
    };
    let check = |tokens: &Tokens| {
        assert_eq!(total(tokens, TOKEN0), 100000);
        assert_eq!(total(tokens, TOKEN1), 100500);
        assert_eq!(tokens.total_issuance(TOKEN0), 100000);
        assert_eq!(tokens.total_issuance(TOKEN1), 100500);
    };
    check(&tokens);
    create(&mut module, &mut tokens, 100, 200, 50, 0).unwrap();
    check(&tokens);
    create(&mut module, &mut tokens, 999, 3, 20, 0).unwrap();
    check(&tokens);
    module.swap(&mut tokens, BUYER, 0, 20, 1).unwrap();
    check(&tokens);
    module.swap(&mut tokens, OTHER, 1, 2, 1).unwrap();
    check(&tokens);
    assert!(module.swap(&mut tokens, OTHER, 0, 499, 1).is_err());
    check(&tokens);
    module.on_finalize(&mut tokens, 20).unwrap();
    check(&tokens);
    module.on_finalize(&mut tokens, 50).unwrap();
    check(&tokens);
    assert_eq!(tokens.reserved_balance(TOKEN0, CREATOR), 0);
    assert_eq!(tokens.total_balance(TOKEN0, BUYER), 10);
    assert_eq!(tokens.total_balance(TOKEN0, OTHER), 666);
    assert_eq!(tokens.total_balance(TOKEN0, CREATOR), 100000 - 676);
}

#[test]
fn example_from_creation_to_payout() {
    let mut runtime = Runtime::new();
    assert!(runtime.deposit(TOKEN0, CREATOR, 100000));
    assert!(runtime.deposit(TOKEN1, BUYER, 100000));
    assert_eq!(runtime.block_number(), 0);
    assert_eq!(
        runtime.create(CREATOR, b"swap".to_vec(), TOKEN0, TOKEN1, 100, 200, 50),
        Ok(Event::PoolCreated(0, CREATOR))
    );
    assert_eq!(runtime.fixed_swap().pools(0).unwrap().end_at(), 50);
    assert_eq!(runtime.swap(BUYER, 0, 20), Ok(Event::PoolSwapped(0, BUYER)));
    let pool: &PoolDetails = runtime.fixed_swap().pools(0).unwrap();
    assert_eq!((pool.swapped0, pool.swapped1), (10, 20));
    assert_eq!(runtime.tokens().reserved_balance(TOKEN0, CREATOR), 90);
    let free_before = runtime.tokens().free_balance(TOKEN0, CREATOR);
    for block in 0..50u64 {
        assert_eq!(runtime.block_number(), block);
        assert_eq!(runtime.next_block(), Ok(vec![]));
    }
    assert_eq!(runtime.block_number(), 50);
    assert_eq!(runtime.swap(BUYER, 0, 20), Err(Error::PoolExpired));
    assert_eq!(runtime.tokens().reserved_balance(TOKEN0, CREATOR), 90);
    assert_eq!(runtime.next_block(), Ok(vec![Event::PoolClosed(0)]));
    assert_eq!(runtime.block_number(), 51);
    assert_eq!(runtime.tokens().reserved_balance(TOKEN0, CREATOR), 0);
    assert_eq!(runtime.tokens().free_balance(TOKEN0, CREATOR), free_before + 90);
    assert_eq!(runtime.tokens().total_balance(TOKEN0, BUYER), 10);
    assert_eq!(runtime.tokens().total_balance(TOKEN1, CREATOR), 20);
    assert_eq!(runtime.fixed_swap().pool_end_at(50, 0), None);
}

#[test]
fn runtime_creates_at_the_current_block() {
    let mut runtime = Runtime::new();
    assert!(runtime.deposit(TOKEN0, CREATOR, 1000));
    for _ in 0..3 {
        runtime.next_block().unwrap();
    }
    assert_eq!(
        runtime.create(CREATOR, Vec::new(), TOKEN0, TOKEN1, 10, 10, 1),
        Ok(Event::PoolCreated(0, CREATOR))
    );
    let pool = runtime.fixed_swap().pools(0).unwrap();
    assert_eq!((pool.start_at, pool.end_at()), (3, 4));
    assert_eq!(runtime.next_block(), Ok(vec![]));
    assert_eq!(runtime.next_block(), Ok(vec![Event::PoolClosed(0)]));
    assert_eq!(runtime.tokens().reserved_balance(TOKEN0, CREATOR), 0);
}

#[test]
fn runtime_block_that_cannot_close_does_not_end() {
    let mut runtime = Runtime::new();
    assert!(runtime.deposit(TOKEN0, CREATOR, 1000));
    assert!(runtime.deposit(TOKEN1, BUYER, 1000));
    runtime.create(CREATOR, Vec::new(), TOKEN0, TOKEN1, 100, 100, 1).unwrap();
    runtime.create(CREATOR, Vec::new(), TOKEN0, TOKEN1, 100, 100, 1).unwrap();
    runtime.swap(BUYER, 0, 150).unwrap();
    assert_eq!(runtime.next_block(), Ok(vec![]));
    assert_eq!(runtime.block_number(), 1);
    assert_eq!(runtime.next_block(), Err(Error::Ledger(LedgerError::InsufficientReserved)));
    assert_eq!(runtime.block_number(), 1);
    assert_eq!(runtime.tokens().reserved_balance(TOKEN0, CREATOR), 50);
    assert_eq!(runtime.fixed_swap().due_count(1), 2);
}

#[test]
fn runtime_deposit_reports_what_does_not_fit() {
    let mut runtime = Runtime::new();
    assert!(runtime.deposit(TOKEN0, CREATOR, u128::MAX));
    assert!(!runtime.deposit(TOKEN0, BUYER, 1));
    assert!(runtime.deposit(TOKEN1, BUYER, 1));
    assert_eq!(runtime.tokens().total_issuance(TOKEN0), u128::MAX);
    assert_eq!(runtime.tokens().free_balance(TOKEN0, BUYER), 0);
}

#[test]
fn pool_created_at_the_last_block_closes_there() {
    let mut module = FixedSwap::new();
    let mut tokens = ledger();
    assert_eq!(
        create(&mut module, &mut tokens, 100, 200, 5, u64::MAX),
        Ok(Event::PoolCreated(0, CREATOR))
    );
    assert_eq!(module.pools(0).unwrap().end_at(), u64::MAX);
    assert_eq!(module.pool_end_at(u64::MAX, 0), Some(()));
    assert_eq!(module.swap(&mut tokens, BUYER, 0, 20, u64::MAX), Err(Error::PoolExpired));
    assert_eq!(module.on_finalize(&mut tokens, u64::MAX), Ok(vec![Event::PoolClosed(0)]));
    assert_eq!(tokens.reserved_balance(TOKEN0, CREATOR), 0);
    assert_eq!(tokens.free_balance(TOKEN0, CREATOR), 100000);
}

#[test]
fn swap_in_one_asset_nets_the_two_amounts() {
    let mut module = FixedSwap::new();
    let mut tokens = ledger();
    assert!(tokens.deposit(TOKEN0, BUYER, 50));
    module
        .create(&mut tokens, CREATOR, Vec::new(), TOKEN0, TOKEN0, 100, 200, 50, 0)
        .unwrap();
    assert_eq!(module.swap(&mut tokens, BUYER, 0, 20, 0), Ok(Event::PoolSwapped(0, BUYER)));
    assert_eq!(tokens.reserved_balance(TOKEN0, CREATOR), 90);
    assert_eq!(tokens.free_balance(TOKEN0, CREATOR), 99900 + 20);
    assert_eq!(tokens.free_balance(TOKEN0, BUYER), 50 + 10 - 20);
    assert_eq!(tokens.total_issuance(TOKEN0), 100050);
}
