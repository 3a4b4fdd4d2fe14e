use mm_liquidator::{
    evaluate, CalcKind, PoolReading, PoolStateCache, PositionInput, PositionTracker, Uint256,
};

fn reading(reserve: u128, minimum: u128, ignore_available: bool, ignore_loan: bool) -> PoolReading {
    PoolReading {
        reserve: Uint256::from_u128(reserve),
        minimum_liquidity: Uint256::from_u128(minimum),
        ignore_calc_available: ignore_available,
        ignore_calc_loan: ignore_loan,
    }
}

fn input(position_id: u64, pool_id: u64, kind: CalcKind, profit: i128) -> PositionInput {
    PositionInput { position_id, pool_id, kind, health: 100, estimated_profit: profit }
}

#[test]
fn loan_excluded_pool_yields_only_availability_opportunity() {
    let mut cache = PoolStateCache::new(10, 100);
    cache.apply(1, reading(1000, 100, false, true), 50, 0).unwrap();
    let mut tracker = PositionTracker::new(100, 5);
    tracker.recompute(&cache, input(11, 1, CalcKind::Loan, 300), 50).unwrap();
    tracker.recompute(&cache, input(12, 1, CalcKind::Availability, 300), 50).unwrap();
    let opps = evaluate(&cache, &tracker);
    assert_eq!(opps.len(), 1);
    assert_eq!(opps[0].key, 12);
    assert_eq!(opps[0].kind, CalcKind::Availability);
}

#[test]
fn pool_below_minimum_yields_nothing() {
    let mut cache = PoolStateCache::new(10, 100);
    cache.apply(1, reading(99, 100, false, false), 50, 0).unwrap();
    cache.apply(2, reading(100, 100, false, false), 50, 0).unwrap();
    let mut tracker = PositionTracker::new(100, 5);
    tracker.recompute(&cache, input(11, 1, CalcKind::Loan, 900), 50).unwrap();
    tracker.recompute(&cache, input(12, 1, CalcKind::Availability, 900), 50).unwrap();
    tracker.recompute(&cache, input(13, 2, CalcKind::Loan, 10), 50).unwrap();
    let opps = evaluate(&cache, &tracker);
    assert_eq!(opps.len(), 1);
    assert!(opps.iter().all(|o| o.pool_id != 1));
    assert_eq!(opps[0].key, 13);
}

#[test]
fn pool_below_minimum_in_high_word_comparison() {
    let mut cache = PoolStateCache::new(10, 100);
    let r = PoolReading {
        reserve: Uint256::new(0, u128::MAX),
        minimum_liquidity: Uint256::new(1, 0),
        ignore_calc_available: false,
        ignore_calc_loan: false,
    };
    cache.apply(1, r, 50, 0).unwrap();
    let mut tracker = PositionTracker::new(100, 5);
    tracker.recompute(&cache, input(11, 1, CalcKind::Loan, 900), 50).unwrap();
    assert!(evaluate(&cache, &tracker).is_empty());
}

#[test]
fn equal_profit_ranks_lower_pool_first() {
    let mut cache = PoolStateCache::new(10, 100);
    cache.apply(9, reading(1000, 1, false, false), 50, 0).unwrap();
    cache.apply(4, reading(1000, 1, false, false), 50, 0).unwrap();
    let mut tracker = PositionTracker::new(100, 5);
    tracker.recompute(&cache, input(1, 9, CalcKind::Loan, 70), 50).unwrap();
    tracker.recompute(&cache, input(2, 4, CalcKind::Loan, 70), 50).unwrap();
    tracker.recompute(&cache, input(3, 9, CalcKind::Loan, 80), 50).unwrap();
    let opps = evaluate(&cache, &tracker);
    let order: Vec<(u64, u64)> = opps.iter().map(|o| (o.key, o.pool_id)).collect();
    assert_eq!(order, vec![(3, 9), (2, 4), (1, 9)]);
}

#[test]
fn equal_profit_and_pool_ranks_lower_key_first() {
    let mut cache = PoolStateCache::new(10, 100);
    cache.apply(4, reading(1000, 1, false, false), 50, 0).unwrap();
    let mut tracker = PositionTracker::new(100, 5);
    tracker.recompute(&cache, input(8, 4, CalcKind::Loan, 70), 50).unwrap();
    tracker.recompute(&cache, input(5, 4, CalcKind::Loan, 70), 50).unwrap();
    let opps = evaluate(&cache, &tracker);
    assert_eq!(opps.iter().map(|o| o.key).collect::<Vec<_>>(), vec![5, 8]);
}

#[test]
fn non_positive_profit_is_discarded() {
    let mut cache = PoolStateCache::new(10, 100);
    cache.apply(4, reading(1000, 1, false, false), 50, 0).unwrap();
    let mut tracker = PositionTracker::new(100, 5);
    tracker.recompute(&cache, input(1, 4, CalcKind::Loan, 0), 50).unwrap();
    tracker.recompute(&cache, input(2, 4, CalcKind::Loan, -5), 50).unwrap();
    assert!(evaluate(&cache, &tracker).is_empty());
}

#[test]
fn stale_position_is_left_out() {
    let mut cache = PoolStateCache::new(10, 100);
    cache.apply(1, reading(1000, 100, false, false), 90, 0).unwrap();
    let mut tracker = PositionTracker::new(100, 5);
    assert!(tracker.recompute(&cache, input(7, 1, CalcKind::Loan, 500), 100).is_err());
    assert!(evaluate(&cache, &tracker).is_empty());
}

#[test]
fn empty_tracker_yields_nothing() {
    let cache = PoolStateCache::new(10, 100);
    let tracker = PositionTracker::new(100, 5);
    assert!(evaluate(&cache, &tracker).is_empty());
}
