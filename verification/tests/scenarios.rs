use fixed_swap::{PoolDetails, Runtime};

fn new_test_ext() -> Runtime {
    let mut runtime = Runtime::new();
    // account_id, currency_id, initial_balance
    for (who, token, amount) in [(0u64, 1u128, 100000u128), (1, 2, 100000)] {
        assert!(runtime.deposit(token, who, amount));
    }
    runtime
}

fn create_pool(runtime: &mut Runtime) {
    let creator = 0;
    let name = b"swap".to_vec();
    let token0 = 1;
    let token1 = 2;
    let total0 = 100;
    let total1 = 200;
    let duration = 50;
    assert!(runtime.create(creator, name, token0, token1, total0, total1, duration).is_ok());
}

#[test]
fn create_works() {
    let mut runtime = new_test_ext();
    let creator = 0;
    let name = b"swap".to_vec();
    let token0 = 1;
    let token1 = 2;
    let total0 = 100;
    let total1 = 200;
    let swapped0 = 0;
    let swapped1 = 0;
    let duration = 50;
    let start_at = 0;
    let end_at = 50;
    assert_eq!(runtime.tokens().total_issuance(token0), 100000);
    assert_eq!(runtime.tokens().can_reserve(token0, creator, 100000), true);
    assert_eq!(runtime.tokens().reserved_balance(token0, creator), 0);
    let pool_id = 0;
    let pool = PoolDetails {
        name,
        creator,
        token0,
        token1,
        total0,
        total1,
        swapped0,
        swapped1,
        duration,
        start_at,
    };
    create_pool(&mut runtime);
    assert_eq!(runtime.fixed_swap().pools(pool_id), Ok(&pool));
    assert_eq!(runtime.fixed_swap().pool_end_at(end_at, pool_id), Some(()));
    assert_eq!(runtime.fixed_swap().next_pool_id(), 1);
    assert_eq!(runtime.tokens().reserved_balance(token0, creator), 100);
}

#[test]
fn swap_works() {
    let mut runtime = new_test_ext();
    create_pool(&mut runtime);
    let creator = 0;
    let buyer = 1;
    let pool_id = 0;
    let amount1 = 20;
    let token0 = 1;
    let token1 = 2;

    assert!(runtime.swap(buyer, pool_id, amount1).is_ok());
    let pool = runtime.fixed_swap().pools(pool_id).unwrap();
    assert_eq!(pool.swapped0, 10);
    assert_eq!(pool.swapped1, 20);
    assert_eq!(runtime.tokens().reserved_balance(token0, creator), 90);
    assert_eq!(runtime.tokens().total_balance(token0, buyer), 10);
    assert_eq!(runtime.tokens().total_balance(token1, creator), 20);
    assert_eq!(runtime.fixed_swap().swaps(pool_id, buyer), (10, 20));
}

#[test]
fn auto_payout_works() {
    let mut runtime = new_test_ext();
    create_pool(&mut runtime);
    let creator = 0;
    let buyer = 1;
    let pool_id = 0;
    let amount1 = 20;
    let token0 = 1;
    let token1 = 2;

    assert!(runtime.swap(buyer, pool_id, amount1).is_ok());
    let pool = runtime.fixed_swap().pools(pool_id).unwrap();
    assert_eq!(pool.swapped0, 10);
    assert_eq!(pool.swapped1, 20);
    assert_eq!(runtime.tokens().reserved_balance(token0, creator), 90);
    assert_eq!(runtime.tokens().total_balance(token0, buyer), 10);
    assert_eq!(runtime.tokens().total_balance(token1, creator), 20);
    assert_eq!(runtime.fixed_swap().swaps(pool_id, buyer), (10, 20));

    assert_eq!(runtime.tokens().reserved_balance(token0, creator), 90);
    assert!(runtime.on_finalize(50).is_ok());
    assert_eq!(runtime.tokens().reserved_balance(token0, creator), 0);
    assert_eq!(runtime.tokens().total_balance(token0, creator), 99990);
    assert_eq!(runtime.tokens().total_balance(token0, buyer), 10);

    assert_eq!(runtime.tokens().total_balance(token1, creator), 20);
    assert_eq!(runtime.tokens().total_balance(token1, buyer), 99980);
}
