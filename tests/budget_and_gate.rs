use mm_liquidator::{size_bid, BudgetError, BudgetLedger, GateError, Outcome, SubmissionGate};

#[test]
fn bid_is_floor_of_percentage() {
    assert_eq!(size_bid(500, 20), 100);
    assert_eq!(size_bid(499, 20), 99);
    assert_eq!(size_bid(7, 33), 2);
    assert_eq!(size_bid(1_000, 100), 1_000);
    assert_eq!(size_bid(1_000, 0), 0);
}

#[test]
fn bid_for_non_positive_profit_is_zero() {
    assert_eq!(size_bid(0, 50), 0);
    assert_eq!(size_bid(-400, 50), 0);
}

#[test]
fn bid_on_largest_profit_does_not_overflow() {
    assert_eq!(size_bid(i128::MAX, 100), i128::MAX as u128);
    assert_eq!(size_bid(i128::MAX, 50), (i128::MAX as u128) / 2);
}

#[test]
fn reserve_beyond_cap_fails_without_change() {
    let mut ledger = BudgetLedger::new(1_000);
    let _held = ledger.reserve(950).unwrap();
    let bid = size_bid(500, 20);
    assert_eq!(bid, 100);
    let r = ledger.reserve(bid);
    assert!(matches!(r, Err(BudgetError::BudgetExceeded { requested: 100, available: 50 })));
    assert_eq!(ledger.cumulative_spent(), 950);
    assert_eq!(ledger.available(), 50);
}

#[test]
fn reserve_then_release_restores_spent() {
    let mut ledger = BudgetLedger::new(1_000);
    let first = ledger.reserve(300).unwrap();
    ledger.confirm(first).unwrap();
    let before = ledger.cumulative_spent();
    let t = ledger.reserve(250).unwrap();
    assert_eq!(t.amount(), 250);
    assert_eq!(ledger.cumulative_spent(), before + 250);
    ledger.release(t).unwrap();
    assert_eq!(ledger.cumulative_spent(), before);
}

#[test]
fn confirmed_spend_is_kept() {
    let mut ledger = BudgetLedger::new(1_000);
    let t = ledger.reserve(400).unwrap();
    ledger.confirm(t).unwrap();
    assert_eq!(ledger.cumulative_spent(), 400);
    assert_eq!(ledger.available(), 600);
}

#[test]
fn spent_never_exceeds_cap_over_mixed_calls() {
    let mut ledger = BudgetLedger::new(500);
    let mut held = Vec::new();
    for amount in [200u128, 200, 200, 50, 100, 1, 0] {
        if let Ok(t) = ledger.reserve(amount) {
            held.push(t);
        }
        assert!(ledger.cumulative_spent() <= ledger.cap());
    }
    // 200 + 200 + 50 + 1 + 0 fit; the third 200 and the 100 do not
    assert_eq!(ledger.cumulative_spent(), 451);
    while let Some(t) = held.pop() {
        ledger.release(t).unwrap();
        assert!(ledger.cumulative_spent() <= ledger.cap());
    }
    assert_eq!(ledger.cumulative_spent(), 0);
}

#[test]
fn release_foreign_reservation_is_refused() {
    let mut big = BudgetLedger::new(1_000);
    let mut small = BudgetLedger::new(1_000);
    let t = big.reserve(600).unwrap();
    let _u = small.reserve(10).unwrap();
    assert_eq!(small.release(t), Err(BudgetError::UnknownReservation));
    assert_eq!(small.cumulative_spent(), 10);
}

#[test]
fn second_admission_of_same_key_fails() {
    let mut gate = SubmissionGate::new(3);
    let t = gate.try_admit(9, 100, 1).unwrap();
    assert_eq!(t.key(), 9);
    assert!(matches!(gate.try_admit(9, 100, 2), Err(GateError::AlreadyInFlight)));
    let _other = gate.try_admit(10, 100, 2).unwrap();
    assert!(matches!(gate.try_admit(9, 101, 3), Err(GateError::AlreadyInFlight)));
    assert_eq!(gate.resolve(t, Outcome::Failed), Ok(Outcome::Failed));
    assert!(!gate.is_in_flight(9));
    assert!(gate.try_admit(9, 102, 4).is_ok());
}

#[test]
fn expiry_frees_keys_past_grace_window() {
    let mut gate = SubmissionGate::new(3);
    let old_token = gate.try_admit(1, 100, 0).unwrap();
    let _t2 = gate.try_admit(2, 102, 0).unwrap();
    assert!(gate.expire(103).is_empty());
    let expired = gate.expire(104);
    assert_eq!(expired, vec![1]);
    assert!(!gate.is_in_flight(1));
    assert!(gate.is_in_flight(2));
    // the key can be admitted again, and the stale token no longer resolves it
    let _t3 = gate.try_admit(1, 104, 1).unwrap();
    assert_eq!(gate.resolve(old_token, Outcome::Confirmed), Err(GateError::NotInFlight));
    assert!(gate.is_in_flight(1));
}
