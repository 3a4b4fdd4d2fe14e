use vstd::prelude::*;
use crate::pool_cache::{CalcKind, PoolRecord, PoolStateCache};
use crate::schedule::Timer;
use crate::table::KeyTable;

verus! {

/// A freshly read position, with the health and profit figures its pool's
/// formula gives.
#[derive(Clone, Copy, Debug, PartialEq, Eq, Structural)]
pub struct PositionInput {
    pub position_id: u64,
    pub pool_id: u64,
    pub kind: CalcKind,
    pub health: u128,
    pub estimated_profit: i128,
}

/// The tracked state of one position.
#[derive(Clone, Copy, Debug, PartialEq, Eq, Structural)]
pub struct PositionRecord {
    pub position_id: u64,
    pub pool_id: u64,
    pub kind: CalcKind,
    pub health: u128,
    pub estimated_profit: i128,
    pub computed_at_block: u64,
    /// False when the last recompute found no usable pool data; the position
    /// then stays out of evaluation until it is recomputed.
    pub evaluable: bool,
}

#[derive(Clone, Copy, Debug, PartialEq, Eq, Structural)]
pub enum PositionError {
    /// The backing pool's data is older than the staleness bound allows.
    StaleDependency { pool_synced_block: u64, required_block: u64 },
    /// The backing pool is not in the cache.
    UnknownPool,
}

/// Pool data synced at `synced_block` may back a computation at
/// `at_block` when it is at most `bound` blocks older.
pub open spec fn fresh_enough(synced_block: u64, at_block: u64, bound: u64) -> bool {
    at_block <= synced_block + bound
}

/// The pool data behind a position is usable for it.
pub open spec fn backed_by(pos: PositionRecord, pool: PoolRecord, bound: u64) -> bool {
    pos.evaluable && fresh_enough(pool.last_synced_block, pos.computed_at_block, bound)
}

/// The record a recompute of `input` at `at_block` stores.
pub open spec fn record_from(input: PositionInput, at_block: u64, evaluable: bool) -> PositionRecord {
    PositionRecord {
        position_id: input.position_id,
        pool_id: input.pool_id,
        kind: input.kind,
        health: input.health,
        estimated_profit: input.estimated_profit,
        computed_at_block: at_block,
        evaluable,
    }
}

/// The record, marked unevaluable.
pub open spec fn unevaluable(r: PositionRecord) -> PositionRecord {
    PositionRecord {
        position_id: r.position_id,
        pool_id: r.pool_id,
        kind: r.kind,
        health: r.health,
        estimated_profit: r.estimated_profit,
        computed_at_block: r.computed_at_block,
        evaluable: false,
    }
}

/// The position map with the records of `ids` marked unevaluable.
pub open spec fn mark_unevaluable(positions: Map<u64, PositionRecord>, ids: Set<u64>) -> Map<u64, PositionRecord> {
    positions.map_entries(|k: u64, r: PositionRecord| if ids.contains(k) { unevaluable(r) } else { r })
}

/// The outcome of recomputing `input` at `at_block` against `pools`.
pub open spec fn recompute_result(pools: Map<u64, PoolRecord>, input: PositionInput, at_block: u64, bound: u64) -> Result<
    (),
    PositionError,
> {
    if !pools.contains_key(input.pool_id) {
        Err(PositionError::UnknownPool)
    } else if !fresh_enough(pools[input.pool_id].last_synced_block, at_block, bound) {
        Err(PositionError::StaleDependency {
            pool_synced_block: pools[input.pool_id].last_synced_block,
            required_block: at_block,
        })
    } else {
        Ok(())
    }
}

/// Health and profit of every tracked position, recomputed on a cadence of
/// its own.
pub struct PositionTracker {
    positions: KeyTable<PositionRecord>,
    recompute_timer: Timer,
    staleness_bound: u64,
}

impl View for PositionTracker {
    type V = Map<u64, PositionRecord>;

    closed spec fn view(&self) -> Map<u64, PositionRecord> {
        self.positions@
    }
}

impl PositionTracker {
    pub closed spec fn wf(&self) -> bool {
        &&& self.positions.wf()
        &&& forall|k: u64| #[trigger] self.positions@.contains_key(k) ==> self.positions@[k].position_id == k
    }

    /// Position ids in the order they were first tracked.
    pub closed spec fn position_order(&self) -> Seq<u64> {
        self.positions.key_seq()
    }

    pub closed spec fn recompute_timer(&self) -> Timer {
        self.recompute_timer
    }

    pub closed spec fn staleness_bound(&self) -> u64 {
        self.staleness_bound
    }

    pub proof fn lemma_order(&self)
        requires
            self.wf(),
        ensures
            self.position_order().no_duplicates(),
            forall|k: u64| #[trigger] self@.contains_key(k) <==> self.position_order().contains(k),
            forall|k: u64| #[trigger] self@.contains_key(k) ==> self@[k].position_id == k,
    {
        self.positions.lemma_keys();
    }

    /// An empty tracker that recomputes every `recompute_interval` seconds and
    /// accepts pool data at most `staleness_bound` blocks old.
    pub fn new(recompute_interval: u64, staleness_bound: u64) -> (t: Self)
        ensures
            t.wf(),
            t@ == Map::<u64, PositionRecord>::empty(),
            t.recompute_timer() == Timer::new_spec(recompute_interval),
            t.staleness_bound() == staleness_bound,
    {
        PositionTracker {
            positions: KeyTable::new(),
            recompute_timer: Timer::new(recompute_interval),
            staleness_bound,
        }
    }

    pub fn staleness_bound_value(&self) -> (r: u64)
        ensures
            r == self.staleness_bound(),
    {
        self.staleness_bound
    }

    pub fn len(&self) -> (n: usize)
        requires
            self.wf(),
        ensures
            n == self.position_order().len(),
    {
        self.positions.len()
    }

    pub fn position_at(&self, i: usize) -> (r: PositionRecord)
        requires
            self.wf(),
            i < self.position_order().len(),
        ensures
            self@.contains_key(self.position_order()[i as int]),
            r == self@[self.position_order()[i as int]],
            r.position_id == self.position_order()[i as int],
    {
        *self.positions.value_at(i)
    }

    pub fn get(&self, position_id: u64) -> (r: Option<PositionRecord>)
        requires
            self.wf(),
        ensures
            r == (if self@.contains_key(position_id) {
                Some(self@[position_id])
            } else {
                None::<PositionRecord>
            }),
    {
        match self.positions.get(position_id) {
            Some(r) => Some(*r),
            None => None,
        }
    }

    pub fn recompute_due(&self, now: u64) -> (r: bool)
        ensures
            r == self.recompute_timer().due_at(now),
    {
        self.recompute_timer.is_due(now)
    }

    pub fn mark_recomputed(&mut self, now: u64)
        requires
            old(self).wf(),
        ensures
            final(self).wf(),
            final(self)@ == old(self)@,
            final(self).position_order() == old(self).position_order(),
            final(self).staleness_bound() == old(self).staleness_bound(),
            final(self).recompute_timer() == old(self).recompute_timer().restarted(now),
    {
        self.recompute_timer.restart(now);
    }

    /// Recomputes a position at `at_block` against the cached pools. When its
    /// pool is missing, or synced more than the staleness bound before
    /// `at_block`, the position is kept but marked unevaluable and the
    /// reason is returned.
    pub fn recompute(&mut self, cache: &PoolStateCache, input: PositionInput, at_block: u64) -> (r: Result<
        (),
        PositionError,
    >)
        requires
            old(self).wf(),
            cache.wf(),
        ensures
            final(self).wf(),
            r == recompute_result(cache@, input, at_block, old(self).staleness_bound()),
            final(self)@ == old(self)@.insert(input.position_id, record_from(input, at_block, r is Ok)),
            final(self).recompute_timer() == old(self).recompute_timer(),
            final(self).staleness_bound() == old(self).staleness_bound(),
    {
        let r = match cache.get(input.pool_id) {
            None => Err(PositionError::UnknownPool),
            Some(pool) => {
                if pool.last_synced_block.saturating_add(self.staleness_bound) < at_block {
                    Err(PositionError::StaleDependency {
                        pool_synced_block: pool.last_synced_block,
                        required_block: at_block,
                    })
                } else {
                    Ok(())
                }
            },
        };
        let record = PositionRecord {
            position_id: input.position_id,
            pool_id: input.pool_id,
            kind: input.kind,
            health: input.health,
            estimated_profit: input.estimated_profit,
            computed_at_block: at_block,
            evaluable: r.is_ok(),
        };
        self.positions.insert(input.position_id, record);
        r
    }

    /// Marks the positions of `ids` unevaluable, keeping their records:
    /// evaluation skips them until their next recompute replaces them.
    pub fn invalidate_all(&mut self, ids: &Vec<u64>)
        requires
            old(self).wf(),
        ensures
            final(self).wf(),
            final(self)@ == mark_unevaluable(old(self)@, ids@.to_set()),
            final(self).position_order() == old(self).position_order(),
            final(self).recompute_timer() == old(self).recompute_timer(),
            final(self).staleness_bound() == old(self).staleness_bound(),
    {
        let ghost start = self@;
        let mut i: usize = 0;
        proof {
            assert(ids@.take(0).to_set() =~= Set::<u64>::empty());
            assert(start =~= mark_unevaluable(start, Set::<u64>::empty()));
        }
        while i < ids.len()
            invariant
                self.wf(),
                self.positions.key_seq() == old(self).positions.key_seq(),
                self.recompute_timer == old(self).recompute_timer,
                self.staleness_bound == old(self).staleness_bound,
                0 <= i <= ids@.len(),
                self@ == mark_unevaluable(start, ids@.take(i as int).to_set()),
            decreases ids@.len() - i,
        {
            let k = ids[i];
            if let Some(r) = self.positions.get(k) {
                let mut marked = *r;
                marked.evaluable = false;
                self.positions.insert(k, marked);
            }
            proof {
                let pre = ids@.take(i as int);
                assert(ids@.take(i + 1) =~= pre.push(k));
                pre.lemma_push_to_set_commute(k);
                assert(self@ =~= mark_unevaluable(start, ids@.take(i + 1).to_set()));
            }
            i = i + 1;
        }
        proof {
            assert(ids@.take(ids@.len() as int) =~= ids@);
        }
    }
}

} // verus!
