use vstd::prelude::*;
use crate::pool_cache::{admits, meets_minimum, CalcKind, PoolRecord, PoolStateCache};
use crate::positions::{backed_by, PositionRecord, PositionTracker};

verus! {

/// A currently profitable action on one position.
#[derive(Clone, Copy, Debug, PartialEq, Eq, Structural)]
pub struct Opportunity {
    /// The position acted on; it also keys submissions.
    pub key: u64,
    pub pool_id: u64,
    pub kind: CalcKind,
    pub estimated_profit: i128,
}

/// The position may be acted on: its pool is cached, holds its minimum
/// liquidity, is not excluded from computations of the position's kind,
/// backs the position with fresh enough data, and the profit is positive.
pub open spec fn is_candidate(pools: Map<u64, PoolRecord>, pos: PositionRecord, bound: u64) -> bool {
    &&& pools.contains_key(pos.pool_id)
    &&& admits(pools[pos.pool_id], pos.kind)
    &&& backed_by(pos, pools[pos.pool_id], bound)
    &&& pos.estimated_profit > 0
}

/// A pool whose reserve is below its minimum liquidity backs no
/// opportunity: no position held in it is a candidate, whatever its kind,
/// freshness or profit.
pub proof fn lemma_pool_below_minimum_backs_nothing(pools: Map<u64, PoolRecord>, pos: PositionRecord, bound: u64)
    requires
        pools.contains_key(pos.pool_id),
        pools[pos.pool_id].reserve@ < pools[pos.pool_id].minimum_liquidity@,
    ensures
        !is_candidate(pools, pos, bound),
{
}

/// The loan flag blocks loan computations only: no loan position on a pool
/// excluded from loan computations is a candidate, while an availability
/// position on it still is whenever the pool's record is valid, holds its
/// minimum liquidity and is not excluded from availability computations,
/// and the position is evaluable, fresh enough and profitable.
pub proof fn lemma_loan_exclusion_spares_availability(pools: Map<u64, PoolRecord>, pos: PositionRecord, bound: u64)
    requires
        pools.contains_key(pos.pool_id),
        pools[pos.pool_id].excluded_from_loan_calc,
    ensures
        pos.kind == CalcKind::Loan ==> !is_candidate(pools, pos, bound),
        pos.kind == CalcKind::Availability && !pools[pos.pool_id].invalidated && meets_minimum(pools[pos.pool_id])
            && !pools[pos.pool_id].excluded_from_availability_calc && backed_by(pos, pools[pos.pool_id], bound)
            && pos.estimated_profit > 0 ==> is_candidate(pools, pos, bound),
{
}

pub open spec fn opportunity_of(pos: PositionRecord) -> Opportunity {
    Opportunity {
        key: pos.position_id,
        pool_id: pos.pool_id,
        kind: pos.kind,
        estimated_profit: pos.estimated_profit,
    }
}

/// The ranking order: higher profit first; on equal profit the lower pool
/// id, then the lower key.
pub open spec fn ranks_before(a: Opportunity, b: Opportunity) -> bool {
    ||| a.estimated_profit > b.estimated_profit
    ||| (a.estimated_profit == b.estimated_profit && a.pool_id < b.pool_id)
    ||| (a.estimated_profit == b.estimated_profit && a.pool_id == b.pool_id && a.key < b.key)
}

pub open spec fn is_ranked(s: Seq<Opportunity>) -> bool {
    forall|i: int, j: int| 0 <= i < j < s.len() ==> ranks_before(#[trigger] s[i], #[trigger] s[j])
}

pub fn ranks_before_exec(a: &Opportunity, b: &Opportunity) -> (r: bool)
    ensures
        r == ranks_before(*a, *b),
{
    a.estimated_profit > b.estimated_profit || (a.estimated_profit == b.estimated_profit && (a.pool_id
        < b.pool_id || (a.pool_id == b.pool_id && a.key < b.key)))
}

/// Whether the position may be acted on now.
pub fn is_candidate_exec(cache: &PoolStateCache, pos: &PositionRecord, bound: u64) -> (r: bool)
    requires
        cache.wf(),
    ensures
        r == is_candidate(cache@, *pos, bound),
{
    if pos.estimated_profit <= 0 || !pos.evaluable || !cache.admits(pos.pool_id, pos.kind) {
        return false;
    }
    match cache.get(pos.pool_id) {
        Some(pool) => pos.computed_at_block <= pool.last_synced_block.saturating_add(bound),
        None => false,
    }
}

/// Scans the tracked positions and returns one opportunity per position that
/// may be acted on, ranked by profit, ties going to the lower pool id.
pub fn evaluate(cache: &PoolStateCache, tracker: &PositionTracker) -> (out: Vec<Opportunity>)
    requires
        cache.wf(),
        tracker.wf(),
    ensures
        is_ranked(out@),
        forall|i: int, j: int|
            0 <= i < j < out@.len() && out@[i].estimated_profit == out@[j].estimated_profit ==> out@[i].pool_id
                <= out@[j].pool_id,
        forall|i: int|
            0 <= i < out@.len() ==> tracker@.contains_key(#[trigger] out@[i].key) && is_candidate(
                cache@,
                tracker@[out@[i].key],
                tracker.staleness_bound(),
            ) && out@[i] == opportunity_of(tracker@[out@[i].key]),
        forall|k: u64|
            #[trigger] tracker@.contains_key(k) && is_candidate(cache@, tracker@[k], tracker.staleness_bound())
                ==> out@.contains(opportunity_of(tracker@[k])),
        forall|i: int|
            0 <= i < out@.len() ==> cache@.contains_key(#[trigger] out@[i].pool_id) && meets_minimum(
                cache@[out@[i].pool_id],
            ),
{
    let bound = tracker.staleness_bound_value();
    let ghost order = tracker.position_order();
    let ghost positions = tracker@;
    let ghost pools = cache@;
    let mut out: Vec<Opportunity> = Vec::new();
    let n = tracker.len();
    proof {
        tracker.lemma_order();
    }
    let mut i: usize = 0;
    while i < n
        invariant
            cache.wf(),
            tracker.wf(),
            cache@ == pools,
            tracker@ == positions,
            tracker.position_order() == order,
            bound == tracker.staleness_bound(),
            n == order.len(),
            0 <= i <= n,
            order.no_duplicates(),
            forall|k: u64| #[trigger] positions.contains_key(k) <==> order.contains(k),
            forall|k: u64| #[trigger] positions.contains_key(k) ==> positions[k].position_id == k,
            is_ranked(out@),
            forall|x: int|
                0 <= x < out@.len() ==> (exists|j: int| 0 <= j < i && order[j] == (#[trigger] out@[x]).key)
                    && positions.contains_key(out@[x].key) && is_candidate(pools, positions[out@[x].key], bound)
                    && out@[x] == opportunity_of(positions[out@[x].key]),
            forall|j: int|
                0 <= j < i && is_candidate(pools, positions[#[trigger] order[j]], bound) ==> out@.contains(
                    opportunity_of(positions[order[j]]),
                ),
        decreases n - i,
    {
        let pos = tracker.position_at(i);
        if is_candidate_exec(cache, &pos, bound) {
            let opp = Opportunity {
                key: pos.position_id,
                pool_id: pos.pool_id,
                kind: pos.kind,
                estimated_profit: pos.estimated_profit,
            };
            proof {
                assert forall|x: int| 0 <= x < out@.len() implies (#[trigger] out@[x]).key != opp.key by {
                    let j = choose|j: int| 0 <= j < i && order[j] == out@[x].key;
                    assert(order[j] != order[i as int]);
                }
            }
            let mut at: usize = 0;
            while at < out.len() && !ranks_before_exec(&opp, &out[at])
                invariant
                    0 <= at <= out@.len(),
                    forall|x: int| 0 <= x < at ==> !ranks_before(opp, #[trigger] out@[x]),
                decreases out@.len() - at,
            {
                at = at + 1;
            }
            let ghost before = out@;
            out.insert(at, opp);
            proof {
                before.insert_ensures(at as int, opp);
                assert(out@ == before.insert(at as int, opp));
                assert forall|x: int| 0 <= x < at implies ranks_before(#[trigger] before[x], opp) by {
                    assert(before[x].key != opp.key);
                }
                assert forall|x: int| at <= x < before.len() implies ranks_before(opp, #[trigger] before[x]) by {
                    if x > at {
                        assert(ranks_before(before[at as int], before[x]));
                    }
                }
                assert forall|a: int, b: int| 0 <= a < b < out@.len() implies ranks_before(
                    #[trigger] out@[a],
                    #[trigger] out@[b],
                ) by {
                    let oa = if a < at { a } else if a == at { -1 } else { a - 1 };
                    let ob = if b < at { b } else if b == at { -1 } else { b - 1 };
                    if a != at && b != at {
                        assert(out@[a] == before[oa]);
                        assert(out@[b] == before[ob]);
                    } else if a == at {
                        assert(out@[b] == before[ob]);
                    } else {
                        assert(out@[a] == before[oa]);
                    }
                }
                assert forall|x: int|
                    0 <= x < out@.len() implies (exists|j: int|
                        0 <= j < i + 1 && order[j] == (#[trigger] out@[x]).key) && positions.contains_key(out@[x].key)
                        && is_candidate(pools, positions[out@[x].key], bound) && out@[x] == opportunity_of(
                        positions[out@[x].key],
                    ) by {
                    if x < at {
                        assert(out@[x] == before[x]);
                    } else if x == at {
                        assert(order[i as int] == out@[x].key);
                    } else {
                        assert(out@[x] == before[x - 1]);
                    }
                }
                assert forall|j: int|
                    0 <= j < i + 1 && is_candidate(pools, positions[#[trigger] order[j]], bound) implies out@.contains(
                        opportunity_of(positions[order[j]]),
                    ) by {
                    if j < i {
                        let x = choose|x: int| 0 <= x < before.len() && before[x] == opportunity_of(positions[order[j]]);
                        if x < at {
                            assert(out@[x] == before[x]);
                        } else {
                            assert(out@[x + 1] == before[x]);
                        }
                    } else {
                        assert(out@[at as int] == opp);
                    }
                }
            }
        } else {
            proof {
                assert forall|x: int|
                    0 <= x < out@.len() implies (exists|j: int|
                        0 <= j < i + 1 && order[j] == (#[trigger] out@[x]).key) by {
                    let j = choose|j: int| 0 <= j < i && order[j] == out@[x].key;
                }
                assert(!is_candidate(pools, positions[order[i as int]], bound));
            }
        }
        i = i + 1;
    }
    proof {
        assert forall|k: u64|
            #[trigger] positions.contains_key(k) && is_candidate(pools, positions[k], bound) implies out@.contains(
                opportunity_of(positions[k]),
            ) by {
            let j = choose|j: int| 0 <= j < order.len() && order[j] == k;
            assert(is_candidate(pools, positions[order[j]], bound));
        }
    }
    out
}

} // verus!
