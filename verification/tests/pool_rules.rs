use fixed_swap::pool::{accumulate, id_after};
use fixed_swap::{Error, Movement, PoolDetails};

fn pool(total0: u128, total1: u128, duration: u64, start_at: u64) -> PoolDetails {
    PoolDetails::new(b"swap".to_vec(), 7, 1, 2, total0, total1, duration, start_at)
}

#[test]
fn new_pool_has_swapped_nothing() {
    let created = pool(100, 200, 50, 3);
    assert_eq!(
        created,
        PoolDetails {
            name: b"swap".to_vec(),
            creator: 7,
            token0: 1,
            token1: 2,
            total0: 100,
            total1: 200,
            swapped0: 0,
            swapped1: 0,
            duration: 50,
            start_at: 3,
        }
    );
}

#[test]
fn create_rejects_zero_duration() {
    let rejected = PoolDetails::create(b"swap".to_vec(), 7, 1, 2, 100, 200, 0, 3);
    assert_eq!(rejected, Err(Error::InvalidDuration));
    let accepted = PoolDetails::create(b"swap".to_vec(), 7, 1, 2, 100, 200, 1, 3);
    assert_eq!(accepted, Ok(pool(100, 200, 1, 3)));
}

#[test]
fn end_at_is_start_plus_duration() {
    assert_eq!(pool(100, 200, 50, 0).end_at(), 50);
    assert_eq!(pool(100, 200, 1, 41).end_at(), 42);
}

#[test]
fn end_at_clamps_at_the_last_block() {
    assert_eq!(pool(100, 200, 2, u64::MAX - 1).end_at(), u64::MAX);
    assert_eq!(pool(100, 200, u64::MAX, u64::MAX).end_at(), u64::MAX);
    assert_eq!(pool(100, 200, 1, u64::MAX - 1).end_at(), u64::MAX);
}

#[test]
fn pool_is_open_strictly_before_its_end() {
    let created = pool(100, 200, 50, 10);
    assert!(created.is_open(10));
    assert!(created.is_open(59));
    assert!(!created.is_open(60));
    assert!(!created.is_open(61));
    assert!(!created.is_open(u64::MAX));
}

#[test]
fn pool_created_at_the_last_block_is_never_open() {
    let created = pool(100, 200, 5, u64::MAX);
    assert!(!created.is_open(u64::MAX));
}

#[test]
fn quote_follows_the_rate() {
    assert_eq!(pool(100, 200, 50, 0).quote(20), Ok(10));
    assert_eq!(pool(100, 200, 50, 0).quote(200), Ok(100));
    assert_eq!(pool(100, 200, 50, 0).quote(0), Ok(0));
    assert_eq!(pool(300, 100, 50, 0).quote(7), Ok(21));
}

#[test]
fn quote_rounds_down() {
    assert_eq!(pool(100, 3, 50, 0).quote(1), Ok(33));
    assert_eq!(pool(100, 3, 50, 0).quote(2), Ok(66));
    assert_eq!(pool(100, 200, 50, 0).quote(1), Ok(0));
    assert_eq!(pool(100, 200, 50, 0).quote(3), Ok(1));
}

#[test]
fn quote_beyond_the_pool_is_not_capped() {
    assert_eq!(pool(100, 200, 50, 0).quote(400), Ok(200));
}

#[test]
fn quote_clamps_the_product() {
    let big = 1u128 << 100;
    assert_eq!(pool(big, big, 50, 0).quote(big), Ok((1u128 << 28) - 1));
    assert_eq!(pool(u128::MAX, 1, 50, 0).quote(2), Ok(u128::MAX));
    assert_eq!(pool(u128::MAX, 2, 50, 0).quote(1), Ok(u128::MAX / 2));
}

#[test]
fn quote_without_a_rate_is_an_error() {
    assert_eq!(pool(100, 0, 50, 0).quote(20), Err(Error::DivisionByZero));
    assert_eq!(pool(100, 0, 50, 0).quote(0), Err(Error::DivisionByZero));
}

#[test]
fn record_swap_adds_both_amounts() {
    let mut created = pool(100, 200, 50, 0);
    created.record_swap(10, 20);
    created.record_swap(5, 10);
    assert_eq!(created.swapped0, 15);
    assert_eq!(created.swapped1, 30);
    assert_eq!(created.total0, 100);
    assert_eq!(created.total1, 200);
}

#[test]
fn record_swap_clamps() {
    let mut created = pool(100, 200, 50, 0);
    created.record_swap(u128::MAX - 1, u128::MAX);
    created.record_swap(5, 5);
    assert_eq!(created.swapped0, u128::MAX);
    assert_eq!(created.swapped1, u128::MAX);
}

#[test]
fn pool_swap_checks_then_records() {
    let mut created = pool(100, 200, 50, 0);
    assert_eq!(created.swap(20, 49), Ok(10));
    assert_eq!(created.swapped0, 10);
    assert_eq!(created.swapped1, 20);
}

#[test]
fn pool_swap_rejects_from_the_end_block_on() {
    let mut created = pool(100, 200, 50, 0);
    assert_eq!(created.swap(20, 50), Err(Error::PoolExpired));
    assert_eq!(created.swap(20, 51), Err(Error::PoolExpired));
    assert_eq!(created, pool(100, 200, 50, 0));
}

#[test]
fn pool_swap_reports_expiry_before_the_missing_rate() {
    let mut degenerate = pool(100, 0, 50, 0);
    assert_eq!(degenerate.swap(20, 50), Err(Error::PoolExpired));
    assert_eq!(degenerate.swap(20, 49), Err(Error::DivisionByZero));
    assert_eq!(degenerate, pool(100, 0, 50, 0));
}

#[test]
fn unswapped_is_the_remainder() {
    let mut created = pool(100, 200, 50, 0);
    assert_eq!(created.unswapped0(), 100);
    created.record_swap(10, 20);
    assert_eq!(created.unswapped0(), 90);
    created.record_swap(90, 180);
    assert_eq!(created.unswapped0(), 0);
}

#[test]
fn unswapped_of_an_oversold_pool_is_zero() {
    let mut created = pool(100, 200, 50, 0);
    created.record_swap(150, 300);
    assert_eq!(created.unswapped0(), 0);
}

#[test]
fn swaps_within_total1_stay_within_total0() {
    let mut created = pool(100, 7, 50, 0);
    let mut paid = 0;
    for amount1 in [1u128, 2, 3, 1] {
        let bought = created.swap(amount1, 0).unwrap();
        paid += amount1;
        assert_eq!(created.swapped1, paid);
        assert!(created.swapped0 <= 100);
        assert!(created.swapped0 * 7 <= created.swapped1 * 100);
        assert!(bought * 7 <= amount1 * 100);
    }
    assert_eq!(created.swapped1, 7);
    assert_eq!(created.swapped0, 14 + 28 + 42 + 14);
}

#[test]
fn accumulate_adds_and_clamps() {
    assert_eq!(accumulate((0, 0), 10, 20), (10, 20));
    assert_eq!(accumulate((10, 20), 5, 7), (15, 27));
    assert_eq!(accumulate((u128::MAX, 1), 1, u128::MAX), (u128::MAX, u128::MAX));
}

#[test]
fn identifiers_stop_at_the_largest() {
    assert_eq!(id_after(0), 1);
    assert_eq!(id_after(41), 42);
    assert_eq!(id_after(u32::MAX - 1), u32::MAX);
    assert_eq!(id_after(u32::MAX), u32::MAX);
}

#[test]
fn escrow_reserves_total0_from_the_creator() {
    assert_eq!(
        pool(100, 200, 50, 0).escrow(),
        Movement::Reserve { token: 1, who: 7, amount: 100 }
    );
}

#[test]
fn payment_is_release_delivery_and_pay() {
    assert_eq!(
        pool(100, 200, 50, 0).payment(9, 10, 20),
        (
            Movement::Unreserve { token: 1, who: 7, amount: 10 },
            Movement::Transfer { token: 1, from: 7, to: 9, amount: 10 },
            Movement::Transfer { token: 2, from: 9, to: 7, amount: 20 },
        )
    );
}

#[test]
fn payout_releases_the_remainder() {
    let mut created = pool(100, 200, 50, 0);
    assert_eq!(created.payout(), Some(Movement::Unreserve { token: 1, who: 7, amount: 100 }));
    created.record_swap(10, 20);
    assert_eq!(created.payout(), Some(Movement::Unreserve { token: 1, who: 7, amount: 90 }));
    created.record_swap(90, 180);
    assert_eq!(created.payout(), None);
    created.record_swap(1, 2);
    assert_eq!(created.payout(), None);
}

#[test]
fn undo_turns_a_movement_around() {
    let reserve = Movement::Reserve { token: 1, who: 7, amount: 5 };
    let unreserve = Movement::Unreserve { token: 1, who: 7, amount: 5 };
    let there = Movement::Transfer { token: 1, from: 7, to: 9, amount: 5 };
    let back = Movement::Transfer { token: 1, from: 9, to: 7, amount: 5 };
    assert_eq!(reserve.undo(), unreserve);
    assert_eq!(unreserve.undo(), reserve);
    assert_eq!(there.undo(), back);
    assert_eq!(back.undo(), there);
}
