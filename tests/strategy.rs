use mm_liquidator::{
    CalcKind, Config, ConfigError, GateError, MmStrategy, Outcome, PoolReading, PositionInput, RefreshKind, Uint256,
};

fn config() -> Config {
    Config {
        chain_id: 31337,
        bid_percentage: 20,
        total_profit: 1_000,
        last_block_number: 40,
        pool_interval_secs: 10,
        update_all_pools_secs: 172_800,
        activity_level_clean_secs: 604_800,
        calc_all_positions_secs: 86_400,
        staleness_bound_blocks: 5,
        grace_blocks: 3,
    }
}

fn reading(reserve: u128, minimum: u128) -> PoolReading {
    PoolReading {
        reserve: Uint256::from_u128(reserve),
        minimum_liquidity: Uint256::from_u128(minimum),
        ignore_calc_available: false,
        ignore_calc_loan: false,
    }
}

fn position(position_id: u64, pool_id: u64, profit: i128) -> PositionInput {
    PositionInput { position_id, pool_id, kind: CalcKind::Loan, health: 90, estimated_profit: profit }
}

#[test]
fn bid_percentage_above_hundred_is_refused() {
    let mut c = config();
    c.bid_percentage = 101;
    assert!(matches!(MmStrategy::new(c), Err(ConfigError::BidPercentageOutOfRange)));
}

#[test]
fn first_tick_asks_for_everything() {
    let mut s = MmStrategy::new(config()).unwrap();
    let plan = s.begin_tick(1_000);
    assert_eq!(plan.refresh, RefreshKind::Full);
    assert!(plan.recompute_positions);
    assert!(plan.evicted_pools.is_empty());
    let plan = s.begin_tick(1_005);
    assert_eq!(plan.refresh, RefreshKind::Nothing);
    assert!(!plan.recompute_positions);
    let plan = s.begin_tick(1_010);
    assert_eq!(plan.refresh, RefreshKind::Partial);
}

#[test]
fn decide_sizes_reserves_and_admits() {
    let mut s = MmStrategy::new(config()).unwrap();
    s.begin_tick(0);
    s.apply_pool(1, reading(1000, 100), 50, 0).unwrap();
    assert_eq!(s.last_block_number(), 50);
    s.recompute_position(position(10, 1, 500), 50, 0).unwrap();
    let subs = s.decide(50, 1);
    assert_eq!(subs.len(), 1);
    assert_eq!(subs[0].key, 10);
    assert_eq!(subs[0].gas_bid, 100);
    assert_eq!(s.cumulative_spent(), 100);
    assert!(s.is_in_flight(10));
    // still in flight on the next pass: nothing new is submitted
    assert!(s.decide(51, 2).is_empty());
    assert_eq!(s.cumulative_spent(), 100);
}

#[test]
fn budget_limits_what_is_submitted() {
    let mut c = config();
    c.total_profit = 150;
    let mut s = MmStrategy::new(c).unwrap();
    s.apply_pool(1, reading(1000, 100), 50, 0).unwrap();
    s.recompute_position(position(10, 1, 500), 50, 0).unwrap();
    s.recompute_position(position(11, 1, 400), 50, 0).unwrap();
    s.recompute_position(position(12, 1, 100), 50, 0).unwrap();
    let subs = s.decide(50, 1);
    let keys: Vec<u64> = subs.iter().map(|x| x.key).collect();
    // bids are 100, 80 and 20: the second does not fit after the first
    assert_eq!(keys, vec![10, 12]);
    assert_eq!(s.cumulative_spent(), 120);
    assert!(!s.is_in_flight(11));
}

#[test]
fn settle_failed_before_dispatch_gives_budget_back() {
    let mut s = MmStrategy::new(config()).unwrap();
    s.apply_pool(1, reading(1000, 100), 50, 0).unwrap();
    s.recompute_position(position(10, 1, 500), 50, 0).unwrap();
    let subs = s.decide(50, 1);
    let a = subs[0].admission;
    assert_eq!(s.settle(10, a, Outcome::Failed), Ok(Outcome::Failed));
    assert_eq!(s.cumulative_spent(), 0);
    assert!(!s.is_in_flight(10));
    assert_eq!(s.settle(10, a, Outcome::Failed), Err(GateError::NotInFlight));
}

#[test]
fn dispatched_spend_is_irrevocable() {
    let mut s = MmStrategy::new(config()).unwrap();
    s.apply_pool(1, reading(1000, 100), 50, 0).unwrap();
    s.recompute_position(position(10, 1, 500), 50, 0).unwrap();
    let subs = s.decide(50, 1);
    assert!(s.mark_dispatched(10));
    assert!(!s.mark_dispatched(10));
    assert_eq!(s.settle(10, subs[0].admission, Outcome::Failed), Ok(Outcome::Failed));
    assert_eq!(s.cumulative_spent(), 100);
}

#[test]
fn expired_submission_becomes_retryable() {
    let mut s = MmStrategy::new(config()).unwrap();
    s.apply_pool(1, reading(1000, 100), 50, 0).unwrap();
    s.recompute_position(position(10, 1, 500), 50, 0).unwrap();
    let first = s.decide(50, 1);
    assert!(s.mark_dispatched(10));
    assert!(s.decide(53, 2).is_empty());
    // past the grace window the key is released and evaluated again
    let subs = s.decide(54, 3);
    assert_eq!(subs.len(), 1);
    assert_eq!(subs[0].key, 10);
    assert_ne!(subs[0].admission, first[0].admission);
    assert_eq!(s.cumulative_spent(), 200);
    // a late outcome of the expired submission leaves the new one in flight
    assert_eq!(s.settle(10, first[0].admission, Outcome::Confirmed), Err(GateError::NotInFlight));
    assert!(s.is_in_flight(10));
    assert_eq!(s.settle(10, subs[0].admission, Outcome::Confirmed), Ok(Outcome::Confirmed));
    assert!(!s.is_in_flight(10));
}

#[test]
fn expired_undispatched_reservation_is_released() {
    let mut s = MmStrategy::new(config()).unwrap();
    s.apply_pool(1, reading(1000, 100), 50, 0).unwrap();
    s.recompute_position(position(10, 1, 500), 50, 0).unwrap();
    s.decide(50, 1);
    s.recompute_position(position(10, 1, -1), 50, 2).unwrap();
    assert!(s.decide(60, 3).is_empty());
    // exactly the expired reservation came back
    assert_eq!(s.cumulative_spent(), 0);
    assert_eq!(s.budget_cap(), 1_000);
    assert!(!s.is_in_flight(10));
}

#[test]
fn out_of_order_pool_read_keeps_head() {
    let mut s = MmStrategy::new(config()).unwrap();
    s.apply_pool(1, reading(1000, 100), 50, 0).unwrap();
    assert!(s.apply_pool(1, reading(5, 100), 45, 1).is_err());
    assert_eq!(s.pool(1).unwrap().reserve, Uint256::from_u128(1000));
    assert_eq!(s.last_block_number(), 50);
}

#[test]
fn hot_pools_are_pools_behind_positions() {
    let mut s = MmStrategy::new(config()).unwrap();
    for p in [1u64, 2, 3] {
        s.apply_pool(p, reading(1000, 100), 50, 0).unwrap();
    }
    s.recompute_position(position(10, 2, 5), 50, 0).unwrap();
    s.recompute_position(position(11, 3, 5), 50, 0).unwrap();
    s.recompute_position(position(12, 2, 5), 50, 0).unwrap();
    assert_eq!(s.hot_pools(10), vec![2, 3]);
    assert_eq!(s.hot_pools(1), vec![2]);
    assert!(s.hot_pools(0).is_empty());
}

#[test]
fn inactive_pools_and_positions_are_evicted() {
    let mut c = config();
    c.activity_level_clean_secs = 100;
    let mut s = MmStrategy::new(c).unwrap();
    s.begin_tick(0);
    s.apply_pool(1, reading(1000, 100), 50, 10).unwrap();
    s.apply_pool(2, reading(1000, 100), 50, 90).unwrap();
    s.recompute_position(position(10, 1, 5), 50, 10).unwrap();
    let plan = s.begin_tick(150);
    assert_eq!(plan.evicted_pools, vec![1]);
    assert_eq!(plan.evicted_positions, vec![10]);
    assert!(s.pool(1).unwrap().invalidated);
    assert!(!s.pool(2).unwrap().invalidated);
    assert!(!s.position(10).unwrap().evaluable);
    // a cold pool yields nothing until it is read again
    assert!(s.decide(50, 151).is_empty());
}
