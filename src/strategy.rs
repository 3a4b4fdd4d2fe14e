use vstd::prelude::*;
use crate::activity::{is_cold, warm_entries, ActivityLedger};
use crate::budget::{bid_for, size_bid, BudgetLedger, BudgetOp, BudgetState, budget_step, Reservation};
use crate::evaluator::{evaluate, is_candidate, is_ranked, opportunity_of, Opportunity};
use crate::gate::{has_expired, AdmissionToken, GateError, InFlight, Outcome, SubmissionGate, token_matches};
use crate::pool_cache::{
    applied, invalidate_pools, is_out_of_order, meets_minimum, refresh_kind_at, CalcKind, PoolReading, PoolStateCache, ReadError,
    RefreshKind,
};
use crate::positions::{mark_unevaluable, record_from, recompute_result, PositionError, PositionInput, PositionTracker};
use crate::schedule::Timer;
use crate::table::KeyTable;

verus! {

/// Settings the operator gives at start-up.
#[derive(Clone, Copy, Debug, PartialEq, Eq, Structural)]
pub struct Config {
    pub chain_id: u64,
    /// Share of an opportunity's profit paid as gas, in percent.
    pub bid_percentage: u64,
    /// Cap on the cumulative gas spend over the run.
    pub total_profit: u128,
    /// The chain head known at start-up.
    pub last_block_number: u64,
    /// Cadence of hot-pool polling, in seconds.
    pub pool_interval_secs: u64,
    /// Cadence of the full pool re-read, in seconds.
    pub update_all_pools_secs: u64,
    /// Cadence of activity cleanup, which is also the eviction horizon, in seconds.
    pub activity_level_clean_secs: u64,
    /// Cadence of position recomputation, in seconds.
    pub calc_all_positions_secs: u64,
    /// How many blocks older than a position's computation its pool data may be.
    pub staleness_bound_blocks: u64,
    /// How many blocks a submission may stay unconfirmed before it expires.
    pub grace_blocks: u64,
}

#[derive(Clone, Copy, Debug, PartialEq, Eq, Structural)]
pub enum ConfigError {
    /// The bid percentage is above 100.
    BidPercentageOutOfRange,
}

/// What the caller has to do for one tick.
#[derive(Debug)]
pub struct TickPlan {
    pub refresh: RefreshKind,
    pub recompute_positions: bool,
    /// Pools dropped for inactivity; their cached records are now marked invalid.
    pub evicted_pools: Vec<u64>,
    /// Positions dropped for inactivity; their records are now marked unevaluable.
    pub evicted_positions: Vec<u64>,
}

/// One action handed to the executor: act on `key` paying `gas_bid`. The
/// admission number names this submission among all those of its key; its
/// outcome is reported back with it.
#[derive(Clone, Copy, Debug, PartialEq, Eq, Structural)]
pub struct Submission {
    pub key: u64,
    pub pool_id: u64,
    pub kind: CalcKind,
    pub estimated_profit: i128,
    pub gas_bid: u128,
    pub admission: u64,
}

/// The action an opportunity calls for, before its admission is numbered.
pub open spec fn submission_of(o: Opportunity, bid_percentage: u64) -> Submission {
    Submission {
        key: o.key,
        pool_id: o.pool_id,
        kind: o.kind,
        estimated_profit: o.estimated_profit,
        gas_bid: bid_for(o.estimated_profit as int, bid_percentage as int) as u128,
        admission: 0,
    }
}

/// The submission with its admission number left out.
pub open spec fn action_of(s: Submission) -> Submission {
    Submission {
        key: s.key,
        pool_id: s.pool_id,
        kind: s.kind,
        estimated_profit: s.estimated_profit,
        gas_bid: s.gas_bid,
        admission: 0,
    }
}

/// Walking ranked opportunities in order, with `available` budget left and
/// `busy` keys already in flight: an opportunity is taken when its key is
/// neither busy nor already taken and its bid fits what is left. Returns the
/// submissions taken and the budget left.
pub open spec fn selection(opps: Seq<Opportunity>, busy: Set<u64>, available: nat, bid_percentage: u64) -> (
    Seq<Submission>,
    nat,
)
    decreases opps.len(),
{
    if opps.len() == 0 {
        (Seq::empty(), available)
    } else {
        let (taken, left) = selection(opps.drop_last(), busy, available, bid_percentage);
        let o = opps.last();
        let bid = bid_for(o.estimated_profit as int, bid_percentage as int);
        if busy.contains(o.key) || taken.map_values(|s: Submission| s.key).contains(o.key) || bid > left {
            (taken, left)
        } else {
            (taken.push(submission_of(o, bid_percentage)), (left - bid) as nat)
        }
    }
}

/// The budget after settling a submission that still held `reserved`
/// (nothing, once dispatched) with `outcome`.
pub open spec fn settled_budget(b: BudgetState, reserved: Option<u128>, outcome: Outcome) -> BudgetState {
    match reserved {
        Some(a) => if outcome == Outcome::Confirmed {
            budget_step(b, BudgetOp::Confirm(a as nat))
        } else {
            budget_step(b, BudgetOp::Release(a as nat))
        },
        None => b,
    }
}

/// Each submission selected comes from one of the opportunities, with its
/// bid, and its key was not busy.
pub proof fn lemma_selection_from(opps: Seq<Opportunity>, busy: Set<u64>, available: nat, bid_percentage: u64)
    ensures
        selection(opps, busy, available, bid_percentage).1 <= available,
        forall|x: int|
            0 <= x < selection(opps, busy, available, bid_percentage).0.len() ==> !busy.contains(
                (#[trigger] selection(opps, busy, available, bid_percentage).0[x]).key,
            ) && exists|j: int|
                0 <= j < opps.len() && selection(opps, busy, available, bid_percentage).0[x] == submission_of(
                    #[trigger] opps[j],
                    bid_percentage,
                ),
    decreases opps.len(),
{
    if opps.len() > 0 {
        let prev = opps.drop_last();
        lemma_selection_from(prev, busy, available, bid_percentage);
        let taken = selection(opps, busy, available, bid_percentage).0;
        let ptaken = selection(prev, busy, available, bid_percentage).0;
        let o = opps.last();
        assert forall|x: int| 0 <= x < taken.len() implies !busy.contains((#[trigger] taken[x]).key) && exists|j: int|
            0 <= j < opps.len() && taken[x] == submission_of(#[trigger] opps[j], bid_percentage) by {
            if x < ptaken.len() {
                assert(taken[x] == ptaken[x]);
                assert(!busy.contains(ptaken[x].key));
                let j = choose|j: int| 0 <= j < prev.len() && ptaken[x] == submission_of(#[trigger] prev[j], bid_percentage);
                assert(opps[j] == prev[j]);
            } else {
                assert(taken != ptaken);
                assert(taken == ptaken.push(submission_of(o, bid_percentage)));
                assert(taken[x] == submission_of(opps[opps.len() - 1], bid_percentage));
            }
        }
    }
}

/// `s` is what evaluating the tracker against the cache yields: each
/// candidate position once, ranked.
pub open spec fn is_evaluation_of(
    pools: Map<u64, crate::pool_cache::PoolRecord>,
    positions: Map<u64, crate::positions::PositionRecord>,
    bound: u64,
    s: Seq<Opportunity>,
) -> bool {
    &&& is_ranked(s)
    &&& forall|i: int|
        0 <= i < s.len() ==> positions.contains_key(#[trigger] s[i].key) && is_candidate(
            pools,
            positions[s[i].key],
            bound,
        ) && s[i] == opportunity_of(positions[s[i].key])
    &&& forall|k: u64|
        #[trigger] positions.contains_key(k) && is_candidate(pools, positions[k], bound) ==> s.contains(
            opportunity_of(positions[k]),
        )
}

/// Some tracked position is held in this pool.
pub open spec fn backs_position(positions: Map<u64, crate::positions::PositionRecord>, pool_id: u64) -> bool {
    exists|k: u64| #[trigger] positions.contains_key(k) && positions[k].pool_id == pool_id
}

/// The first `limit` distinct values of `s`, in order of first appearance.
pub open spec fn first_distinct(s: Seq<u64>, limit: nat) -> Seq<u64>
    decreases s.len(),
{
    if s.len() == 0 {
        Seq::empty()
    } else {
        let prev = first_distinct(s.drop_last(), limit);
        if prev.contains(s.last()) || prev.len() >= limit {
            prev
        } else {
            prev.push(s.last())
        }
    }
}

/// Whether `x` is an element of `v`.
fn contains_id(v: &Vec<u64>, x: u64) -> (r: bool)
    ensures
        r == v@.contains(x),
{
    let mut i: usize = 0;
    while i < v.len()
        invariant
            0 <= i <= v@.len(),
            forall|j: int| 0 <= j < i ==> v@[j] != x,
        decreases v@.len() - i,
    {
        if v[i] == x {
            return true;
        }
        i = i + 1;
    }
    false
}

/// Tokens held for a submission until it is settled.
struct Pending {
    reservation: Option<Reservation>,
    admission: AdmissionToken,
}

/// What a pending submission still holds reserved.
spec fn held_amount(p: Pending) -> nat {
    match p.reservation {
        Some(r) => r.amount_spec() as nat,
        None => 0,
    }
}

/// The sum of what the pending submissions of `keys` still hold reserved.
spec fn held_in(pending: Map<u64, Pending>, keys: Seq<u64>) -> nat
    decreases keys.len(),
{
    if keys.len() == 0 {
        0
    } else {
        held_in(pending, keys.drop_last()) + held_amount(pending[keys.last()])
    }
}

proof fn lemma_held_concat(p: Map<u64, Pending>, a: Seq<u64>, b: Seq<u64>)
    ensures
        held_in(p, a + b) == held_in(p, a) + held_in(p, b),
    decreases b.len(),
{
    if b.len() == 0 {
        assert(a + b =~= a);
    } else {
        lemma_held_concat(p, a, b.drop_last());
        assert((a + b).drop_last() =~= a + b.drop_last());
    }
}

proof fn lemma_held_frame(p1: Map<u64, Pending>, p2: Map<u64, Pending>, keys: Seq<u64>)
    requires
        forall|i: int| 0 <= i < keys.len() ==> held_amount(p1[#[trigger] keys[i]]) == held_amount(p2[keys[i]]),
    ensures
        held_in(p1, keys) == held_in(p2, keys),
    decreases keys.len(),
{
    if keys.len() > 0 {
        lemma_held_frame(p1, p2, keys.drop_last());
    }
}

/// Taking the pending submission of `k` out takes its reservation out of the sum.
proof fn lemma_held_remove(p: Map<u64, Pending>, keys: Seq<u64>, k: u64, after: Seq<u64>)
    requires
        keys.no_duplicates(),
        exists|i: int| 0 <= i < keys.len() && keys[i] == k && after == keys.remove(i),
    ensures
        held_in(p, keys) == held_in(p.remove(k), after) + held_amount(p[k]),
{
    let i = choose|i: int| 0 <= i < keys.len() && keys[i] == k && after == keys.remove(i);
    let a = keys.subrange(0, i);
    let b = keys.subrange(i + 1, keys.len() as int);
    assert(keys =~= (a + seq![k]) + b);
    assert(after =~= a + b);
    lemma_held_concat(p, a + seq![k], b);
    lemma_held_concat(p, a, seq![k]);
    lemma_held_concat(p, a, b);
    assert(seq![k].drop_last() =~= Seq::<u64>::empty());
    assert(seq![k].last() == k);
    assert(held_in(p, Seq::<u64>::empty()) == 0);
    assert(held_in(p, seq![k]) == held_amount(p[k]));
    assert forall|j: int| 0 <= j < after.len() implies held_amount(p[#[trigger] after[j]]) == held_amount(
        p.remove(k)[after[j]],
    ) by {
        if j < i {
            assert(after[j] == keys[j]);
            assert(keys[j] != keys[i]);
        } else {
            assert(after[j] == keys[j + 1]);
            assert(keys[j + 1] != keys[i]);
        }
    }
    lemma_held_frame(p, p.remove(k), after);
}

/// Adding a pending submission for a new key adds its reservation to the sum.
proof fn lemma_held_push(p: Map<u64, Pending>, keys: Seq<u64>, k: u64, v: Pending)
    requires
        !keys.contains(k),
    ensures
        held_in(p.insert(k, v), keys.push(k)) == held_in(p, keys) + held_amount(v),
{
    assert(keys.push(k).drop_last() =~= keys);
    assert forall|j: int| 0 <= j < keys.len() implies held_amount(p[#[trigger] keys[j]]) == held_amount(
        p.insert(k, v)[keys[j]],
    ) by {
        assert(keys[j] != k);
    }
    lemma_held_frame(p, p.insert(k, v), keys);
}

/// The strategy engine: owns every cache and ledger and makes all decisions
/// of a tick in one sequence.
pub struct MmStrategy {
    config: Config,
    cache: PoolStateCache,
    tracker: PositionTracker,
    pool_activity: ActivityLedger,
    position_activity: ActivityLedger,
    budget: BudgetLedger,
    gate: SubmissionGate,
    pending: KeyTable<Pending>,
    last_block_number: u64,
}

impl MmStrategy {
    pub closed spec fn config(&self) -> Config {
        self.config
    }

    pub closed spec fn cache(&self) -> PoolStateCache {
        self.cache
    }

    pub closed spec fn tracker(&self) -> PositionTracker {
        self.tracker
    }

    pub closed spec fn pool_activity(&self) -> ActivityLedger {
        self.pool_activity
    }

    pub closed spec fn position_activity(&self) -> ActivityLedger {
        self.position_activity
    }

    pub closed spec fn budget(&self) -> BudgetState {
        self.budget@
    }

    pub closed spec fn in_flight(&self) -> Map<u64, InFlight> {
        self.gate@
    }

    pub closed spec fn last_block(&self) -> u64 {
        self.last_block_number
    }

    /// The amount still reserved, not yet confirmed, for an in-flight key.
    pub closed spec fn reserved_for(&self, key: u64) -> Option<u128> {
        match self.pending@[key].reservation {
            Some(r) => Some(r.amount_spec()),
            None => None,
        }
    }

    /// What the in-flight submissions of `keys` still hold reserved, in total.
    pub closed spec fn held_for(&self, keys: Seq<u64>) -> nat {
        held_in(self.pending@, keys)
    }

    pub closed spec fn wf(&self) -> bool {
        &&& self.budget@.reserved == held_in(self.pending@, self.pending.key_seq())
        &&& self.cache.wf()
        &&& self.tracker.wf()
        &&& self.pool_activity.wf()
        &&& self.position_activity.wf()
        &&& self.budget.wf()
        &&& self.gate.wf()
        &&& self.pending.wf()
        &&& self.config.bid_percentage <= 100
        &&& self.tracker.staleness_bound() == self.config.staleness_bound_blocks
        &&& self.gate.grace_blocks() == self.config.grace_blocks
        &&& self.pending@.dom() == self.gate@.dom()
        &&& forall|k: u64|
            #[trigger] self.pending@.contains_key(k) ==> self.pending@[k].admission.key_spec() == k
                && token_matches(self.gate@, k, self.pending@[k].admission.admission_spec())
    }

    /// A strategy with empty caches, the full budget and nothing in flight;
    /// fails when the bid percentage is above 100.
    pub fn new(config: Config) -> (r: Result<MmStrategy, ConfigError>)
        ensures
            config.bid_percentage > 100 ==> r == Err::<MmStrategy, ConfigError>(ConfigError::BidPercentageOutOfRange),
            config.bid_percentage <= 100 ==> (r matches Ok(s) && s.wf() && s.config() == config
                && s.cache()@ == Map::<u64, crate::pool_cache::PoolRecord>::empty()
                && s.tracker()@ == Map::<u64, crate::positions::PositionRecord>::empty()
                && s.budget() == (BudgetState { spent: 0, cap: config.total_profit as nat, reserved: 0 })
                && s.in_flight() == Map::<u64, InFlight>::empty()
                && s.last_block() == config.last_block_number
                && s.cache().hot_timer() == Timer::new_spec(config.pool_interval_secs)
                && s.cache().full_timer() == Timer::new_spec(config.update_all_pools_secs)
                && s.tracker().recompute_timer() == Timer::new_spec(config.calc_all_positions_secs)
                && s.pool_activity()@ == Map::<u64, crate::activity::ActivityEntry>::empty()
                && s.position_activity()@ == Map::<u64, crate::activity::ActivityEntry>::empty()
                && s.pool_activity().cleanup_timer() == Timer::new_spec(config.activity_level_clean_secs)
                && s.position_activity().cleanup_timer() == Timer::new_spec(config.activity_level_clean_secs)),
    {
        if config.bid_percentage > 100 {
            return Err(ConfigError::BidPercentageOutOfRange);
        }
        let s = MmStrategy {
            config,
            cache: PoolStateCache::new(config.pool_interval_secs, config.update_all_pools_secs),
            tracker: PositionTracker::new(config.calc_all_positions_secs, config.staleness_bound_blocks),
            pool_activity: ActivityLedger::new(config.activity_level_clean_secs),
            position_activity: ActivityLedger::new(config.activity_level_clean_secs),
            budget: BudgetLedger::new(config.total_profit),
            gate: SubmissionGate::new(config.grace_blocks),
            pending: KeyTable::new(),
            last_block_number: config.last_block_number,
        };
        proof {
            assert(s.pending@.dom() =~= s.gate@.dom());
            assert(held_in(s.pending@, s.pending.key_seq()) == 0);
        }
        Ok(s)
    }

    /// Decides what a tick at `now` calls for and restarts the timers it
    /// satisfies. Activity cleanup, when due, is done here. Eviction
    /// invalidates lazily: the cache and tracker records of evicted keys stay
    /// in place but are marked invalid, so evaluation skips them and their
    /// next read or recompute replaces them from scratch.
    pub fn begin_tick(&mut self, now: u64) -> (plan: TickPlan)
        requires
            old(self).wf(),
        ensures
            final(self).wf(),
            plan.refresh == refresh_kind_at(old(self).cache().full_timer(), old(self).cache().hot_timer(), now),
            plan.recompute_positions == old(self).tracker().recompute_timer().due_at(now),
            plan.recompute_positions ==> final(self).tracker().recompute_timer() == old(
                self,
            ).tracker().recompute_timer().restarted(now),
            plan.refresh != RefreshKind::Nothing ==> final(self).cache().hot_timer() == old(
                self,
            ).cache().hot_timer().restarted(now),
            plan.refresh == RefreshKind::Full ==> final(self).cache().full_timer() == old(
                self,
            ).cache().full_timer().restarted(now),
            old(self).pool_activity().cleanup_timer().due_at(now) ==> final(self).pool_activity()@ == warm_entries(
                old(self).pool_activity()@,
                now,
                old(self).pool_activity().cleanup_timer().interval,
            ),
            old(self).position_activity().cleanup_timer().due_at(now) ==> final(self).position_activity()@
                == warm_entries(
                old(self).position_activity()@,
                now,
                old(self).position_activity().cleanup_timer().interval,
            ),
            !old(self).pool_activity().cleanup_timer().due_at(now) ==> plan.evicted_pools@.len() == 0
                && final(self).pool_activity() == old(self).pool_activity(),
            !old(self).position_activity().cleanup_timer().due_at(now) ==> plan.evicted_positions@.len() == 0
                && final(self).position_activity() == old(self).position_activity(),
            forall|k: u64|
                old(self).pool_activity().cleanup_timer().due_at(now) ==> (plan.evicted_pools@.contains(k) <==> (
                old(self).pool_activity()@.contains_key(k) && is_cold(
                    old(self).pool_activity()@[k],
                    now,
                    old(self).pool_activity().cleanup_timer().interval,
                ))),
            forall|k: u64|
                old(self).position_activity().cleanup_timer().due_at(now) ==> (plan.evicted_positions@.contains(k)
                <==> (old(self).position_activity()@.contains_key(k) && is_cold(
                    old(self).position_activity()@[k],
                    now,
                    old(self).position_activity().cleanup_timer().interval,
                ))),
            !plan.recompute_positions ==> final(self).tracker().recompute_timer() == old(
                self,
            ).tracker().recompute_timer(),
            plan.refresh == RefreshKind::Nothing ==> final(self).cache().hot_timer() == old(
                self,
            ).cache().hot_timer(),
            plan.refresh != RefreshKind::Full ==> final(self).cache().full_timer() == old(
                self,
            ).cache().full_timer(),
            final(self).cache()@ == invalidate_pools(old(self).cache()@, plan.evicted_pools@.to_set()),
            final(self).tracker()@ == mark_unevaluable(old(self).tracker()@, plan.evicted_positions@.to_set()),
            final(self).budget() == old(self).budget(),
            final(self).in_flight() == old(self).in_flight(),
    {
        let refresh = self.cache.refresh_due(now);
        self.cache.mark_refreshed(refresh, now);
        let recompute_positions = self.tracker.recompute_due(now);
        if recompute_positions {
            self.tracker.mark_recomputed(now);
        }
        let evicted_pools = if self.pool_activity.cleanup_due(now) {
            self.pool_activity.cleanup(now)
        } else {
            Vec::new()
        };
        let evicted_positions = if self.position_activity.cleanup_due(now) {
            self.position_activity.cleanup(now)
        } else {
            Vec::new()
        };
        self.cache.invalidate_all(&evicted_pools);
        self.tracker.invalidate_all(&evicted_positions);
        TickPlan { refresh, recompute_positions, evicted_pools, evicted_positions }
    }

    /// Stores a pool read (see [`PoolStateCache::apply`]) and, when it is
    /// kept, records activity on the pool and advances the known chain head.
    pub fn apply_pool(&mut self, pool_id: u64, reading: PoolReading, block: u64, now: u64) -> (r: Result<(), ReadError>)
        requires
            old(self).wf(),
        ensures
            final(self).wf(),
            final(self).cache()@ == applied(old(self).cache()@, pool_id, reading, block, now),
            r is Ok <==> !is_out_of_order(old(self).cache()@, pool_id, block),
            r is Ok ==> final(self).pool_activity()@ == old(self).pool_activity()@.insert(
                pool_id,
                crate::activity::touched_entry(old(self).pool_activity()@, pool_id, now),
            ),
            r is Err ==> final(self).pool_activity()@ == old(self).pool_activity()@,
            r is Ok ==> final(self).last_block() == if block > old(self).last_block() {
                block
            } else {
                old(self).last_block()
            },
            r is Err ==> final(self).last_block() == old(self).last_block(),
            final(self).tracker()@ == old(self).tracker()@,
            final(self).budget() == old(self).budget(),
            final(self).in_flight() == old(self).in_flight(),
    {
        let r = self.cache.apply(pool_id, reading, block, now);
        if r.is_ok() {
            self.pool_activity.touch(pool_id, now);
            if block > self.last_block_number {
                self.last_block_number = block;
            }
        }
        r
    }

    /// Recomputes a position (see [`PositionTracker::recompute`]) and records
    /// activity on it.
    pub fn recompute_position(&mut self, input: PositionInput, at_block: u64, now: u64) -> (r: Result<
        (),
        PositionError,
    >)
        requires
            old(self).wf(),
        ensures
            final(self).wf(),
            r == recompute_result(old(self).cache()@, input, at_block, old(self).config().staleness_bound_blocks),
            final(self).tracker()@ == old(self).tracker()@.insert(
                input.position_id,
                record_from(input, at_block, r is Ok),
            ),
            final(self).position_activity()@ == old(self).position_activity()@.insert(
                input.position_id,
                crate::activity::touched_entry(old(self).position_activity()@, input.position_id, now),
            ),
            final(self).cache()@ == old(self).cache()@,
            final(self).budget() == old(self).budget(),
            final(self).in_flight() == old(self).in_flight(),
    {
        let r = self.tracker.recompute(&self.cache, input, at_block);
        self.position_activity.touch(input.position_id, now);
        r
    }

    /// Walks `opps` in order and submits each one whose key is not in flight
    /// and whose bid still fits the budget: the bid is reserved and the key
    /// admitted through the submission gate at `current_block`.
    pub fn select(&mut self, opps: &Vec<Opportunity>, current_block: u64, now: u64) -> (r: Vec<Submission>)
        requires
            old(self).wf(),
        ensures
            final(self).wf(),
            ({
                let (taken, left) = selection(
                    opps@,
                    old(self).in_flight().dom(),
                    (old(self).budget().cap - old(self).budget().spent) as nat,
                    old(self).config().bid_percentage,
                );
                &&& r@.map_values(|s: Submission| action_of(s)) == taken
                &&& final(self).budget().cap == old(self).budget().cap
                &&& final(self).budget().spent == old(self).budget().cap - left
                &&& final(self).budget().reserved == old(self).budget().reserved + (final(self).budget().spent
                    - old(self).budget().spent)
                &&& final(self).in_flight().dom() == old(self).in_flight().dom() + taken.map_values(
                    |s: Submission| s.key,
                ).to_set()
            }),
            forall|k: u64| #[trigger] old(self).in_flight().contains_key(k) ==> final(self).in_flight()[k] == old(
                self,
            ).in_flight()[k],
            forall|x: int|
                0 <= x < r@.len() ==> token_matches(final(self).in_flight(), (#[trigger] r@[x]).key, r@[x].admission),
            final(self).config() == old(self).config(),
            final(self).cache() == old(self).cache(),
            final(self).tracker() == old(self).tracker(),
            final(self).last_block() == old(self).last_block(),
    {
        let ghost busy = self.gate@.dom();
        let ghost start_gate = self.gate@;
        let ghost start_budget = self.budget@;
        let ghost available = (start_budget.cap - start_budget.spent) as nat;
        let pct = self.config.bid_percentage;
        let mut out: Vec<Submission> = Vec::new();
        let mut i: usize = 0;
        proof {
            self.budget.lemma_consistent();
            assert(opps@.take(0) =~= Seq::<Opportunity>::empty());
            assert(busy + Seq::<Submission>::empty().map_values(|s: Submission| s.key).to_set() =~= busy);
        }
        while i < opps.len()
            invariant
                self.wf(),
                pct == self.config.bid_percentage,
                self.config == old(self).config,
                self.cache == old(self).cache,
                self.tracker == old(self).tracker,
                self.last_block_number == old(self).last_block_number,
                busy == old(self).gate@.dom(),
                start_gate == old(self).gate@,
                start_budget == old(self).budget@,
                available == start_budget.cap - start_budget.spent,
                0 <= i <= opps@.len(),
                ({
                    let (taken, left) = selection(opps@.take(i as int), busy, available, pct);
                    &&& out@.map_values(|s: Submission| action_of(s)) == taken
                    &&& self.budget@.cap == start_budget.cap
                    &&& self.budget@.spent == start_budget.cap - left
                    &&& self.budget@.reserved == start_budget.reserved + (self.budget@.spent - start_budget.spent)
                    &&& self.gate@.dom() == busy + taken.map_values(|s: Submission| s.key).to_set()
                }),
                forall|k: u64| #[trigger] start_gate.contains_key(k) ==> self.gate@[k] == start_gate[k],
                forall|x: int|
                    0 <= x < out@.len() ==> token_matches(self.gate@, (#[trigger] out@[x]).key, out@[x].admission),
            decreases opps@.len() - i,
        {
            let o = opps[i];
            let ghost prefix = opps@.take(i as int);
            let ghost taken = selection(prefix, busy, available, pct).0;
            let ghost left = selection(prefix, busy, available, pct).1;
            proof {
                assert(opps@.take(i + 1).drop_last() =~= prefix);
                assert(opps@.take(i + 1).last() == o);
            }
            let bid = size_bid(o.estimated_profit, pct);
            if !self.gate.is_in_flight(o.key) {
                match self.budget.reserve(bid) {
                    Ok(reservation) => {
                        match self.gate.try_admit(o.key, current_block, now) {
                            Ok(admission) => {
                                let number = admission.admission();
                                let ghost old_gate = self.gate@;
                                let ghost before_out = out@;
                                let ghost old_pending = self.pending@;
                                let ghost old_keys = self.pending.key_seq();
                                proof {
                                    self.pending.lemma_keys();
                                }
                                self.pending.insert(o.key, Pending { reservation: Some(reservation), admission });
                                proof {
                                    lemma_held_push(old_pending, old_keys, o.key, self.pending@[o.key]);
                                }
                                let sub = Submission {
                                    key: o.key,
                                    pool_id: o.pool_id,
                                    kind: o.kind,
                                    estimated_profit: o.estimated_profit,
                                    gas_bid: bid,
                                    admission: number,
                                };
                                out.push(sub);
                                proof {
                                    let f = |s: Submission| s.key;
                                    let nt = taken.push(submission_of(o, pct));
                                    assert(action_of(sub) == submission_of(o, pct));
                                    assert(out@.map_values(|s: Submission| action_of(s)) =~= nt) by {
                                        assert(before_out.map_values(|s: Submission| action_of(s)) == taken);
                                        assert forall|x: int| 0 <= x < before_out.len() implies out@.map_values(
                                            |s: Submission| action_of(s),
                                        )[x] == taken[x] by {
                                            assert(out@[x] == before_out[x]);
                                            assert(before_out.map_values(|s: Submission| action_of(s))[x] == taken[x]);
                                        }
                                    }
                                    assert(nt.map_values(f) =~= taken.map_values(f).push(o.key));
                                    taken.map_values(f).lemma_push_to_set_commute(o.key);
                                    assert forall|x: int| 0 <= x < out@.len() implies token_matches(
                                        self.gate@,
                                        (#[trigger] out@[x]).key,
                                        out@[x].admission,
                                    ) by {
                                        if x < before_out.len() {
                                            assert(out@[x] == before_out[x]);
                                            assert(token_matches(old_gate, before_out[x].key, before_out[x].admission));
                                            assert(before_out[x].key != o.key);
                                        }
                                    }
                                    assert(self.pending@.dom() =~= self.gate@.dom());
                                    assert forall|k: u64| #[trigger] self.pending@.contains_key(k) implies
                                        self.pending@[k].admission.key_spec() == k && token_matches(
                                            self.gate@,
                                            k,
                                            self.pending@[k].admission.admission_spec(),
                                        ) by {
                                        if k != o.key {
                                            assert(old_pending.contains_key(k));
                                        }
                                    }
                                    assert(self.gate@.dom() =~= busy + nt.map_values(f).to_set());
                                }
                            },
                            Err(_) => {
                                let _ = self.budget.release(reservation);
                            },
                        }
                    },
                    Err(_) => {},
                }
            }
            i = i + 1;
        }
        proof {
            assert(opps@.take(opps@.len() as int) =~= opps@);
        }
        out
    }

    /// Settles the pending tokens of keys whose submissions just expired:
    /// a reservation never dispatched is given back.
    fn drop_expired(&mut self, keys: &Vec<u64>)
        requires
            old(self).cache.wf(),
            old(self).tracker.wf(),
            old(self).pool_activity.wf(),
            old(self).position_activity.wf(),
            old(self).budget.wf(),
            old(self).gate.wf(),
            old(self).pending.wf(),
            old(self).config.bid_percentage <= 100,
            old(self).tracker.staleness_bound() == old(self).config.staleness_bound_blocks,
            old(self).gate.grace_blocks() == old(self).config.grace_blocks,
            old(self).pending@.dom() == old(self).gate@.dom() + keys@.to_set(),
            old(self).budget@.reserved == held_in(old(self).pending@, old(self).pending.key_seq()),
            keys@.no_duplicates(),
            forall|k: u64| #[trigger] keys@.contains(k) ==> !old(self).gate@.contains_key(k),
            forall|k: u64|
                #[trigger] old(self).gate@.contains_key(k) ==> old(self).pending@[k].admission.key_spec() == k
                    && token_matches(old(self).gate@, k, old(self).pending@[k].admission.admission_spec()),
        ensures
            final(self).wf(),
            final(self).gate@ == old(self).gate@,
            final(self).budget@.cap == old(self).budget@.cap,
            final(self).budget@.spent + held_in(old(self).pending@, keys@) == old(self).budget@.spent,
            final(self).budget@.reserved + held_in(old(self).pending@, keys@) == old(self).budget@.reserved,
            final(self).config == old(self).config,
            final(self).cache == old(self).cache,
            final(self).tracker == old(self).tracker,
            final(self).last_block_number == old(self).last_block_number,
    {
        let mut r: usize = 0;
        proof {
            assert(keys@.subrange(0, keys@.len() as int) =~= keys@);
            assert(keys@.take(0) =~= Seq::<u64>::empty());
        }
        while r < keys.len()
            invariant
                self.cache.wf(),
                self.tracker.wf(),
                self.pool_activity.wf(),
                self.position_activity.wf(),
                self.budget.wf(),
                self.gate.wf(),
                self.pending.wf(),
                self.config.bid_percentage <= 100,
                self.tracker.staleness_bound() == self.config.staleness_bound_blocks,
                self.gate.grace_blocks() == self.config.grace_blocks,
                self.gate@ == old(self).gate@,
                self.budget@.cap == old(self).budget@.cap,
                self.budget@.reserved == held_in(self.pending@, self.pending.key_seq()),
                self.budget@.spent + held_in(old(self).pending@, keys@.take(r as int)) == old(self).budget@.spent,
                self.budget@.reserved + held_in(old(self).pending@, keys@.take(r as int)) == old(
                    self,
                ).budget@.reserved,
                forall|k: u64| #[trigger] self.pending@.contains_key(k) ==> self.pending@[k] == old(self).pending@[k],
                self.config == old(self).config,
                self.cache == old(self).cache,
                self.tracker == old(self).tracker,
                self.last_block_number == old(self).last_block_number,
                0 <= r <= keys@.len(),
                keys@.no_duplicates(),
                forall|k: u64| #[trigger] keys@.contains(k) ==> !self.gate@.contains_key(k),
                self.pending@.dom() == self.gate@.dom() + keys@.subrange(r as int, keys@.len() as int).to_set(),
                forall|k: u64| #[trigger] self.gate@.contains_key(k) ==> self.pending@[k] == old(self).pending@[k],
            decreases keys@.len() - r,
        {
            let k = keys[r];
            let ghost before = self.pending@;
            let ghost before_keys = self.pending.key_seq();
            proof {
                self.pending.lemma_keys();
                assert(keys@.subrange(r as int, keys@.len() as int)[0] == k);
                assert(before.contains_key(k));
            }
            let taken = self.pending.remove(k);
            proof {
                self.budget.lemma_consistent();
                lemma_held_remove(before, before_keys, k, self.pending.key_seq());
                assert(keys@.take(r + 1).drop_last() =~= keys@.take(r as int));
                assert(keys@.take(r + 1).last() == k);
            }
            if let Some(p) = taken {
                if let Some(reservation) = p.reservation {
                    let _ = self.budget.release(reservation);
                }
            }
            proof {
                let tail0 = keys@.subrange(r as int, keys@.len() as int);
                let tail1 = keys@.subrange(r + 1, keys@.len() as int);
                assert(tail0 =~= seq![k] + tail1);
                assert(tail0[0] == k);
                assert(keys@[r as int] == k);
                assert(keys@.contains(k));
                assert(!self.gate@.contains_key(k));
                assert(self.pending@ == before.remove(k));
                assert(before.dom() == self.gate@.dom() + tail0.to_set());
                assert forall|x: u64| self.pending@.contains_key(x) <==> (self.gate@.dom() + tail1.to_set()).contains(x) by {
                    if self.gate@.contains_key(x) {
                        assert(x != k);
                        assert(before.contains_key(x));
                    }
                    if tail1.contains(x) {
                        let e = choose|e: int| 0 <= e < tail1.len() && #[trigger] tail1[e] == x;
                        assert(tail0[e + 1] == x);
                    }
                    if x == k && tail1.contains(x) {
                        let e = choose|e: int| 0 <= e < tail1.len() && #[trigger] tail1[e] == x;
                        assert(keys@[r + 1 + e] == keys@[r as int]);
                    }
                    if tail0.contains(x) && x != k {
                        let e = choose|e: int| 0 <= e < tail0.len() && #[trigger] tail0[e] == x;
                        assert(e != 0);
                        assert(tail1[e - 1] == x);
                    }
                }
                assert(self.pending@.dom() =~= self.gate@.dom() + tail1.to_set());
            }
            r = r + 1;
        }
        proof {
            assert(self.pending@.dom() =~= self.gate@.dom());
            assert(keys@.take(keys@.len() as int) =~= keys@);
        }
    }

    /// One decision pass at `current_block`: submissions that outlived the
    /// grace window are expired (a reservation never dispatched is given
    /// back), the tracked positions are evaluated, and the ranked
    /// opportunities are handed to [`MmStrategy::select`].
    ///
    /// Every submission returned acts on a candidate position: its pool is
    /// cached, holds its minimum liquidity, is not excluded from that kind of
    /// computation and backs the position with fresh enough data.
    pub fn decide(&mut self, current_block: u64, now: u64) -> (r: Vec<Submission>)
        requires
            old(self).wf(),
        ensures
            final(self).wf(),
            final(self).cache() == old(self).cache(),
            final(self).tracker() == old(self).tracker(),
            final(self).budget().cap == old(self).budget().cap,
            final(self).budget().spent <= final(self).budget().cap,
            exists|s: Seq<Opportunity>, expired: Seq<u64>, busy: Set<u64>, available: nat|
                #[trigger] is_evaluation_of(
                    old(self).cache()@,
                    old(self).tracker()@,
                    old(self).config().staleness_bound_blocks,
                    s,
                ) && expired.no_duplicates() && (forall|k: u64|
                    #[trigger] expired.contains(k) <==> old(self).in_flight().contains_key(k) && has_expired(
                        old(self).in_flight()[k],
                        current_block,
                        old(self).config().grace_blocks,
                    )) && busy == crate::gate::unexpired(
                    old(self).in_flight(),
                    current_block,
                    old(self).config().grace_blocks,
                ).dom() && available + old(self).budget().spent == old(self).budget().cap
                    + #[trigger] old(self).held_for(expired) && r@.map_values(|s: Submission| action_of(s))
                    == #[trigger] selection(
                    s,
                    busy,
                    available,
                    old(self).config().bid_percentage,
                ).0 && final(self).budget().spent == old(self).budget().cap - selection(
                    s,
                    busy,
                    available,
                    old(self).config().bid_percentage,
                ).1,
            final(self).budget().reserved + old(self).budget().spent
                == old(self).budget().reserved + final(self).budget().spent,
            final(self).in_flight().dom() == crate::gate::unexpired(
                old(self).in_flight(),
                current_block,
                old(self).config().grace_blocks,
            ).dom() + r@.map_values(|s: Submission| s.key).to_set(),
            forall|x: int|
                0 <= x < r@.len() ==> old(self).tracker()@.contains_key(#[trigger] r@[x].key) && is_candidate(
                    old(self).cache()@,
                    old(self).tracker()@[r@[x].key],
                    old(self).config().staleness_bound_blocks,
                ) && action_of(r@[x]) == submission_of(
                    opportunity_of(old(self).tracker()@[r@[x].key]),
                    old(self).config().bid_percentage,
                ),
            forall|x: int|
                0 <= x < r@.len() ==> token_matches(final(self).in_flight(), (#[trigger] r@[x]).key, r@[x].admission),
            forall|x: int|
                0 <= x < r@.len() ==> old(self).cache()@.contains_key(#[trigger] r@[x].pool_id) && meets_minimum(
                    old(self).cache()@[r@[x].pool_id],
                ),
            forall|x: int| 0 <= x < r@.len() ==> final(self).in_flight().contains_key(#[trigger] r@[x].key),
    {
        let ghost grace = self.gate.grace_blocks();
        let ghost gate_before = self.gate@;
        let expired = self.gate.expire(current_block);
        proof {
            assert forall|k: u64| expired@.contains(k) implies !self.gate@.contains_key(k) by {}
            assert(self.pending@.dom() =~= self.gate@.dom() + expired@.to_set());
            assert forall|k: u64| #[trigger] self.gate@.contains_key(k) implies self.pending@[k].admission.key_spec() == k
                && token_matches(self.gate@, k, self.pending@[k].admission.admission_spec()) by {
                assert(gate_before.contains_key(k));
            }
        }
        self.drop_expired(&expired);
        let ghost busy_gate = self.gate@;
        let opps = evaluate(&self.cache, &self.tracker);
        let ghost avail = (self.budget@.cap - self.budget@.spent) as nat;
        proof {
            self.budget.lemma_consistent();
        }
        let r = self.select(&opps, current_block, now);
        proof {
            lemma_selection_from(opps@, busy_gate.dom(), avail, self.config.bid_percentage);
            let taken = selection(opps@, busy_gate.dom(), avail, self.config.bid_percentage).0;
            assert(r@.map_values(|s: Submission| action_of(s)) == taken);
            assert forall|x: int| 0 <= x < r@.len() implies #[trigger] action_of(r@[x]) == taken[x] by {
                assert(r@.map_values(|s: Submission| action_of(s))[x] == action_of(r@[x]));
            }
            assert(r@.map_values(|s: Submission| s.key) =~= taken.map_values(|s: Submission| s.key));
            assert(self.budget@.spent == old(self).budget@.cap - selection(
                opps@,
                busy_gate.dom(),
                avail,
                self.config.bid_percentage,
            ).1);
            assert(avail + old(self).budget@.spent == old(self).budget@.cap + held_in(old(self).pending@, expired@));
            assert(avail + old(self).budget().spent == old(self).budget().cap + old(self).held_for(expired@));
            assert(expired@.no_duplicates());
            assert(forall|k: u64|
                #[trigger] expired@.contains(k) <==> old(self).in_flight().contains_key(k) && has_expired(
                    old(self).in_flight()[k],
                    current_block,
                    old(self).config().grace_blocks,
                ));
            assert(busy_gate.dom() == crate::gate::unexpired(
                old(self).in_flight(),
                current_block,
                old(self).config().grace_blocks,
            ).dom());
            assert(is_evaluation_of(old(self).cache@, old(self).tracker@, old(self).config.staleness_bound_blocks, opps@));
            assert forall|x: int| 0 <= x < r@.len() implies old(self).tracker()@.contains_key(#[trigger] r@[x].key)
                && is_candidate(
                old(self).cache()@,
                old(self).tracker()@[r@[x].key],
                old(self).config().staleness_bound_blocks,
            ) && action_of(r@[x]) == submission_of(
                opportunity_of(old(self).tracker()@[r@[x].key]),
                old(self).config().bid_percentage,
            ) by {
                assert(action_of(r@[x]) == taken[x]);
                let j = choose|j: int| 0 <= j < opps@.len() && taken[x] == submission_of(#[trigger] opps@[j], self.config.bid_percentage);
                assert(opps@[j].key == r@[x].key);
            }
            let pct = old(self).config().bid_percentage;
            let busy = crate::gate::unexpired(old(self).in_flight(), current_block, old(self).config().grace_blocks).dom();
            assert(is_evaluation_of(old(self).cache()@, old(self).tracker()@, old(self).config().staleness_bound_blocks, opps@));
            assert(busy == busy_gate.dom());
            assert(r@.map_values(|s: Submission| action_of(s)) == selection(opps@, busy, avail, pct).0);
            assert(self.budget() == self.budget@);
            assert(self.budget().spent == old(self).budget().cap - selection(opps@, busy, avail, pct).1);
            assert forall|x: int| 0 <= x < r@.len() implies final(self).in_flight().contains_key(#[trigger] r@[x].key) by {
                let f = |s: Submission| s.key;
                assert(r@.map_values(f)[x] == r@[x].key);
                assert(r@.map_values(f).to_set().contains(r@[x].key));
            }
        }
        r
    }

    /// Records that the submission for `key` went out: its reservation is
    /// confirmed and stays spent whatever happens to the transaction.
    /// Returns false, changing nothing, when `key` is not in flight or was
    /// already dispatched.
    pub fn mark_dispatched(&mut self, key: u64) -> (r: bool)
        requires
            old(self).wf(),
        ensures
            final(self).wf(),
            r == (old(self).in_flight().contains_key(key) && old(self).reserved_for(key) is Some),
            r ==> final(self).budget() == budget_step(
                old(self).budget(),
                BudgetOp::Confirm(old(self).reserved_for(key).unwrap() as nat),
            ) && final(self).reserved_for(key) is None,
            !r ==> final(self).budget() == old(self).budget(),
            final(self).in_flight() == old(self).in_flight(),
            final(self).config() == old(self).config(),
            final(self).cache() == old(self).cache(),
            final(self).tracker() == old(self).tracker(),
    {
        if !self.pending.contains_key(key) {
            return false;
        }
        let ghost before = self.pending@;
        let ghost before_keys = self.pending.key_seq();
        proof {
            self.pending.lemma_keys();
        }
        match self.pending.remove(key) {
            Some(p) => {
                let ghost mid_keys = self.pending.key_seq();
                proof {
                    lemma_held_remove(before, before_keys, key, mid_keys);
                    self.pending.lemma_keys();
                }
                let dispatched = p.reservation.is_some();
                if let Some(reservation) = p.reservation {
                    let _ = self.budget.confirm(reservation);
                }
                self.pending.insert(key, Pending { reservation: None, admission: p.admission });
                proof {
                    lemma_held_push(before.remove(key), mid_keys, key, self.pending@[key]);
                    assert(self.pending@.dom() =~= before.dom());
                    assert forall|k: u64| #[trigger] self.pending@.contains_key(k) implies self.pending@[k].admission.key_spec()
                        == k && token_matches(self.gate@, k, self.pending@[k].admission.admission_spec()) by {
                        if k != key {
                            assert(self.pending@[k] == before[k]);
                        }
                    }
                }
                dispatched
            },
            None => false,
        }
    }

    /// Ends the submission for `key` that bears `admission` with `outcome`. A
    /// reservation not yet dispatched is confirmed on `Confirmed` and given
    /// back otherwise; one already dispatched stays spent. The key can then be
    /// submitted again. Fails with `NotInFlight`, changing nothing, when that
    /// submission is no longer in flight: a late outcome of an expired
    /// submission never closes a later one of the same key.
    pub fn settle(&mut self, key: u64, admission: u64, outcome: Outcome) -> (r: Result<Outcome, GateError>)
        requires
            old(self).wf(),
        ensures
            final(self).wf(),
            token_matches(old(self).in_flight(), key, admission) ==> r == Ok::<Outcome, GateError>(outcome)
                && final(self).in_flight() == old(self).in_flight().remove(key)
                && final(self).budget() == settled_budget(old(self).budget(), old(self).reserved_for(key), outcome),
            !token_matches(old(self).in_flight(), key, admission) ==> r == Err::<Outcome, GateError>(
                GateError::NotInFlight,
            )
                && final(self).in_flight() == old(self).in_flight() && final(self).budget() == old(self).budget(),
            final(self).config() == old(self).config(),
            final(self).cache() == old(self).cache(),
            final(self).tracker() == old(self).tracker(),
    {
        match self.pending.get(key) {
            Some(p) => {
                if p.admission.admission() != admission {
                    return Err(GateError::NotInFlight);
                }
            },
            None => {
                return Err(GateError::NotInFlight);
            },
        }
        let ghost before = self.pending@;
        let ghost before_keys = self.pending.key_seq();
        proof {
            self.pending.lemma_keys();
        }
        match self.pending.remove(key) {
            Some(p) => {
                proof {
                    lemma_held_remove(before, before_keys, key, self.pending.key_seq());
                }
                if let Some(reservation) = p.reservation {
                    let _ = match outcome {
                        Outcome::Confirmed => self.budget.confirm(reservation),
                        _ => self.budget.release(reservation),
                    };
                }
                let r = self.gate.resolve(p.admission, outcome);
                proof {
                    assert(self.pending@.dom() =~= self.gate@.dom());
                    assert forall|k: u64| #[trigger] self.pending@.contains_key(k) implies self.pending@[k].admission.key_spec()
                        == k && token_matches(self.gate@, k, self.pending@[k].admission.admission_spec()) by {
                        assert(self.pending@[k] == before[k]);
                    }
                }
                r
            },
            None => Err(GateError::NotInFlight),
        }
    }

    /// The pools behind tracked positions, each once, in tracking order, at
    /// most `limit` of them: the set polled on the frequent cadence.
    pub fn hot_pools(&self, limit: usize) -> (r: Vec<u64>)
        requires
            self.wf(),
        ensures
            r@ == first_distinct(
                self.tracker().position_order().map_values(|k: u64| self.tracker()@[k].pool_id),
                limit as nat,
            ),
            r@.len() <= limit,
            r@.no_duplicates(),
            forall|x: int| 0 <= x < r@.len() ==> backs_position(self.tracker()@, #[trigger] r@[x]),
            r@.len() < limit ==> forall|k: u64|
                #[trigger] self.tracker()@.contains_key(k) ==> r@.contains(self.tracker()@[k].pool_id),
    {
        let ghost order = self.tracker.position_order();
        let ghost positions = self.tracker@;
        let ghost pool_seq = order.map_values(|k: u64| positions[k].pool_id);
        proof {
            self.tracker.lemma_order();
            assert(pool_seq.take(0) =~= Seq::<u64>::empty());
        }
        let n = self.tracker.len();
        let mut out: Vec<u64> = Vec::new();
        let mut i: usize = 0;
        while i < n
            invariant
                self.tracker.wf(),
                self.tracker@ == positions,
                self.tracker.position_order() == order,
                pool_seq == order.map_values(|k: u64| positions[k].pool_id),
                n == order.len(),
                forall|k: u64| #[trigger] positions.contains_key(k) <==> order.contains(k),
                0 <= i <= n,
                out@ == first_distinct(pool_seq.take(i as int), limit as nat),
                out@.len() <= limit,
                out@.no_duplicates(),
                forall|x: int| 0 <= x < out@.len() ==> backs_position(positions, #[trigger] out@[x]),
                out@.len() < limit ==> forall|j: int| 0 <= j < i ==> out@.contains(positions[#[trigger] order[j]].pool_id),
            decreases n - i,
        {
            let pos = self.tracker.position_at(i);
            let ghost before = out@;
            proof {
                assert(pool_seq.take(i + 1).drop_last() =~= pool_seq.take(i as int));
                assert(pool_seq.take(i + 1).last() == pos.pool_id);
            }
            if out.len() < limit && !contains_id(&out, pos.pool_id) {
                out.push(pos.pool_id);
                proof {
                    assert forall|x: int| 0 <= x < out@.len() implies backs_position(positions, #[trigger] out@[x]) by {
                        if x < before.len() {
                            assert(out@[x] == before[x]);
                        } else {
                            assert(positions.contains_key(order[i as int]));
                        }
                    }
                    assert forall|j: int| 0 <= j < i + 1 && out@.len() < limit implies out@.contains(
                        positions[#[trigger] order[j]].pool_id,
                    ) by {
                        if j < i {
                            let x = choose|x: int| 0 <= x < before.len() && before[x] == positions[order[j]].pool_id;
                            assert(out@[x] == before[x]);
                        } else {
                            assert(out@[before.len() as int] == pos.pool_id);
                        }
                    }
                }
            }
            i = i + 1;
        }
        proof {
            assert(pool_seq.take(n as int) =~= pool_seq);
            if out@.len() < limit {
                assert forall|k: u64| #[trigger] positions.contains_key(k) implies out@.contains(positions[k].pool_id) by {
                    let j = choose|j: int| 0 <= j < order.len() && order[j] == k;
                    assert(out@.contains(positions[order[j]].pool_id));
                }
            }
        }
        out
    }

    pub fn cumulative_spent(&self) -> (r: u128)
        ensures
            r == self.budget().spent,
    {
        self.budget.cumulative_spent()
    }

    pub fn budget_cap(&self) -> (r: u128)
        ensures
            r == self.budget().cap,
    {
        self.budget.cap()
    }

    pub fn is_in_flight(&self, key: u64) -> (r: bool)
        requires
            self.wf(),
        ensures
            r == self.in_flight().contains_key(key),
    {
        self.gate.is_in_flight(key)
    }

    pub fn pool(&self, pool_id: u64) -> (r: Option<crate::pool_cache::PoolRecord>)
        requires
            self.wf(),
        ensures
            r == (if self.cache()@.contains_key(pool_id) {
                Some(self.cache()@[pool_id])
            } else {
                None::<crate::pool_cache::PoolRecord>
            }),
    {
        self.cache.get(pool_id)
    }

    pub fn position(&self, position_id: u64) -> (r: Option<crate::positions::PositionRecord>)
        requires
            self.wf(),
        ensures
            r == (if self.tracker()@.contains_key(position_id) {
                Some(self.tracker()@[position_id])
            } else {
                None::<crate::positions::PositionRecord>
            }),
    {
        self.tracker.get(position_id)
    }

    pub fn last_block_number(&self) -> (r: u64)
        ensures
            r == self.last_block(),
    {
        self.last_block_number
    }

    pub fn bid_percentage(&self) -> (r: u64)
        ensures
            r == self.config().bid_percentage,
    {
        self.config.bid_percentage
    }
}

} // verus!
