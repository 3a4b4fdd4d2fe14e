use mm_liquidator::{
    ActivityLedger, CalcKind, PoolReading, PoolStateCache, PositionError, PositionInput, PositionTracker, ReadError,
    RefreshKind, Uint256,
};

fn reading(reserve: u128, minimum: u128, ignore_available: bool, ignore_loan: bool) -> PoolReading {
    PoolReading {
        reserve: Uint256::from_u128(reserve),
        minimum_liquidity: Uint256::from_u128(minimum),
        ignore_calc_available: ignore_available,
        ignore_calc_loan: ignore_loan,
    }
}

#[test]
fn apply_stores_a_new_pool() {
    let mut cache = PoolStateCache::new(10, 172_800);
    assert_eq!(cache.apply(7, reading(1000, 100, false, true), 42, 1_000), Ok(()));
    let rec = cache.get(7).unwrap();
    assert_eq!(rec.pool_id, 7);
    assert_eq!(rec.reserve, Uint256::from_u128(1000));
    assert_eq!(rec.minimum_liquidity, Uint256::from_u128(100));
    assert_eq!(rec.last_synced_block, 42);
    assert_eq!(rec.last_synced_at, 1_000);
    assert!(!rec.excluded_from_availability_calc);
    assert!(rec.excluded_from_loan_calc);
    assert_eq!(cache.len(), 1);
}

#[test]
fn out_of_order_read_is_dropped() {
    let mut cache = PoolStateCache::new(10, 172_800);
    cache.apply(1, reading(500, 100, false, false), 20, 1).unwrap();
    let r = cache.apply(1, reading(9_999, 100, false, false), 15, 2);
    assert_eq!(r, Err(ReadError::OutOfOrder { stored_block: 20, read_block: 15 }));
    let rec = cache.get(1).unwrap();
    assert_eq!(rec.last_synced_block, 20);
    assert_eq!(rec.reserve, Uint256::from_u128(500));
}

#[test]
fn synced_block_never_decreases_over_shuffled_reads() {
    let mut cache = PoolStateCache::new(10, 172_800);
    let blocks: [u64; 7] = [5, 9, 3, 9, 12, 1, 11];
    let mut highest: u64 = 0;
    for (i, b) in blocks.iter().enumerate() {
        let _ = cache.apply(3, reading(i as u128, 0, false, false), *b, i as u64);
        let stored = cache.get(3).unwrap().last_synced_block;
        assert!(stored >= highest);
        highest = stored;
    }
    assert_eq!(highest, 12);
}

#[test]
fn read_at_same_block_replaces() {
    let mut cache = PoolStateCache::new(10, 172_800);
    cache.apply(1, reading(500, 100, false, false), 20, 1).unwrap();
    assert_eq!(cache.apply(1, reading(600, 100, false, false), 20, 2), Ok(()));
    assert_eq!(cache.get(1).unwrap().reserve, Uint256::from_u128(600));
}

#[test]
fn admits_honours_minimum_and_flags() {
    let mut cache = PoolStateCache::new(10, 172_800);
    cache.apply(1, reading(1000, 100, false, true), 1, 1).unwrap();
    cache.apply(2, reading(99, 100, false, false), 1, 1).unwrap();
    cache.apply(3, reading(100, 100, false, false), 1, 1).unwrap();
    assert!(cache.admits(1, CalcKind::Availability));
    assert!(!cache.admits(1, CalcKind::Loan));
    assert!(!cache.admits(2, CalcKind::Availability));
    assert!(!cache.admits(2, CalcKind::Loan));
    assert!(cache.admits(3, CalcKind::Loan));
    assert!(!cache.admits(4, CalcKind::Loan));
}

#[test]
fn refresh_schedule_follows_two_timers() {
    let mut cache = PoolStateCache::new(10, 172_800);
    assert_eq!(cache.refresh_due(0), RefreshKind::Full);
    cache.mark_refreshed(RefreshKind::Full, 100);
    assert_eq!(cache.refresh_due(105), RefreshKind::Nothing);
    assert_eq!(cache.refresh_due(110), RefreshKind::Partial);
    cache.mark_refreshed(RefreshKind::Partial, 110);
    assert_eq!(cache.refresh_due(119), RefreshKind::Nothing);
    assert_eq!(cache.refresh_due(172_900), RefreshKind::Full);
}

#[test]
fn refresh_tolerates_missed_ticks() {
    let mut cache = PoolStateCache::new(10, 1_000);
    cache.mark_refreshed(RefreshKind::Full, 0);
    // a tick arriving long after several hot intervals were missed
    assert_eq!(cache.refresh_due(55), RefreshKind::Partial);
    cache.mark_refreshed(RefreshKind::Partial, 55);
    assert_eq!(cache.refresh_due(64), RefreshKind::Nothing);
    assert_eq!(cache.refresh_due(65), RefreshKind::Partial);
}

#[test]
fn invalidated_pool_is_skipped_then_replaced_by_any_read() {
    let mut cache = PoolStateCache::new(10, 100);
    cache.apply(1, reading(1000, 0, false, false), 50, 1).unwrap();
    cache.invalidate_all(&vec![1, 9]);
    let rec = cache.get(1).unwrap();
    assert!(rec.invalidated);
    assert_eq!(rec.last_synced_block, 50);
    assert!(!cache.admits(1, CalcKind::Loan));
    assert!(cache.get(9).is_none());
    // the next read starts the pool afresh, whatever its block
    assert_eq!(cache.apply(1, reading(7, 0, false, false), 10, 2), Ok(()));
    let rec = cache.get(1).unwrap();
    assert!(!rec.invalidated);
    assert_eq!(rec.last_synced_block, 10);
    assert!(cache.admits(1, CalcKind::Loan));
}

#[test]
fn invalidated_position_is_unevaluable_until_recomputed() {
    let mut cache = PoolStateCache::new(10, 100);
    cache.apply(1, reading(1000, 100, false, false), 95, 1).unwrap();
    let mut tracker = PositionTracker::new(86_400, 5);
    tracker.recompute(&cache, input(10, 1, CalcKind::Loan, 50), 100).unwrap();
    tracker.invalidate_all(&vec![10]);
    let rec = tracker.get(10).unwrap();
    assert!(!rec.evaluable);
    assert_eq!(rec.estimated_profit, 50);
    tracker.recompute(&cache, input(10, 1, CalcKind::Loan, 60), 100).unwrap();
    assert!(tracker.get(10).unwrap().evaluable);
}

fn input(position_id: u64, pool_id: u64, kind: CalcKind, profit: i128) -> PositionInput {
    PositionInput { position_id, pool_id, kind, health: 120, estimated_profit: profit }
}

#[test]
fn recompute_against_stale_pool_fails() {
    let mut cache = PoolStateCache::new(10, 100);
    cache.apply(1, reading(1000, 100, false, false), 90, 1).unwrap();
    let mut tracker = PositionTracker::new(86_400, 5);
    let r = tracker.recompute(&cache, input(10, 1, CalcKind::Loan, 50), 100);
    assert_eq!(r, Err(PositionError::StaleDependency { pool_synced_block: 90, required_block: 100 }));
    let rec = tracker.get(10).unwrap();
    assert!(!rec.evaluable);
    assert_eq!(rec.computed_at_block, 100);
}

#[test]
fn recompute_within_bound_succeeds() {
    let mut cache = PoolStateCache::new(10, 100);
    cache.apply(1, reading(1000, 100, false, false), 95, 1).unwrap();
    let mut tracker = PositionTracker::new(86_400, 5);
    assert_eq!(tracker.recompute(&cache, input(10, 1, CalcKind::Loan, 50), 100), Ok(()));
    let rec = tracker.get(10).unwrap();
    assert!(rec.evaluable);
    assert_eq!(rec.estimated_profit, 50);
    assert_eq!(rec.health, 120);
}

#[test]
fn recompute_without_pool_fails() {
    let cache = PoolStateCache::new(10, 100);
    let mut tracker = PositionTracker::new(86_400, 5);
    assert_eq!(tracker.recompute(&cache, input(10, 1, CalcKind::Loan, 50), 100), Err(PositionError::UnknownPool));
    assert!(!tracker.get(10).unwrap().evaluable);
}

#[test]
fn recompute_timer_is_independent() {
    let mut tracker = PositionTracker::new(86_400, 5);
    assert!(tracker.recompute_due(0));
    tracker.mark_recomputed(0);
    assert!(!tracker.recompute_due(86_399));
    assert!(tracker.recompute_due(86_400));
}

#[test]
fn touch_raises_score_and_keeps_latest_time() {
    let mut ledger = ActivityLedger::new(604_800);
    ledger.touch(5, 100);
    ledger.touch(5, 200);
    ledger.touch(5, 150);
    let e = ledger.get(5).unwrap();
    assert_eq!(e.activity_score, 3);
    assert_eq!(e.last_touched_at, 200);
}

#[test]
fn cleanup_evicts_only_cold_entries() {
    let mut ledger = ActivityLedger::new(1_000);
    ledger.touch(1, 0);
    ledger.touch(2, 500);
    ledger.touch(3, 1_000);
    assert!(ledger.cleanup_due(0));
    let evicted = ledger.cleanup(1_600);
    assert_eq!(evicted, vec![1, 2]);
    assert!(ledger.get(1).is_none());
    assert!(ledger.get(2).is_none());
    assert!(ledger.get(3).is_some());
    assert!(!ledger.cleanup_due(2_599));
    assert!(ledger.cleanup_due(2_600));
}

#[test]
fn entry_exactly_at_horizon_is_kept() {
    let mut ledger = ActivityLedger::new(1_000);
    ledger.touch(1, 600);
    let evicted = ledger.cleanup(1_600);
    assert!(evicted.is_empty());
    assert!(ledger.get(1).is_some());
}
