use vstd::prelude::*;
use crate::schedule::Timer;
use crate::table::KeyTable;
use crate::uint256::Uint256;

verus! {

/// The two profit computations a pool can take part in.
#[derive(Clone, Copy, Debug, PartialEq, Eq, Structural)]
pub enum CalcKind {
    Availability,
    Loan,
}

/// What one read of a pool contract returns.
#[derive(Clone, Copy, Debug, PartialEq, Eq, Structural)]
pub struct PoolReading {
    pub reserve: Uint256,
    pub minimum_liquidity: Uint256,
    pub ignore_calc_available: bool,
    pub ignore_calc_loan: bool,
}

/// The cached state of one pool.
#[derive(Clone, Copy, Debug, PartialEq, Eq, Structural)]
pub struct PoolRecord {
    pub pool_id: u64,
    pub reserve: Uint256,
    pub minimum_liquidity: Uint256,
    pub last_synced_block: u64,
    pub last_synced_at: u64,
    pub excluded_from_availability_calc: bool,
    pub excluded_from_loan_calc: bool,
    /// Set when the pool went inactive: the record is kept but no longer
    /// trusted. Evaluation skips it, and the next read replaces it whatever
    /// its block.
    pub invalidated: bool,
}

/// Which refresh a tick calls for.
#[derive(Clone, Copy, Debug, PartialEq, Eq, Structural)]
pub enum RefreshKind {
    /// No refresh is due.
    Nothing,
    /// Re-read the hot subset of pools.
    Partial,
    /// Re-discover the pool set and re-read every pool.
    Full,
}

/// Why a pool read was not stored.
#[derive(Clone, Copy, Debug, PartialEq, Eq, Structural)]
pub enum ReadError {
    /// The read comes from a block older than the one already cached.
    OutOfOrder { stored_block: u64, read_block: u64 },
}

/// The record that a read of `pool_id` at `block`, received at `at`, yields.
pub open spec fn record_of(pool_id: u64, reading: PoolReading, block: u64, at: u64) -> PoolRecord {
    PoolRecord {
        pool_id,
        reserve: reading.reserve,
        minimum_liquidity: reading.minimum_liquidity,
        last_synced_block: block,
        last_synced_at: at,
        excluded_from_availability_calc: reading.ignore_calc_available,
        excluded_from_loan_calc: reading.ignore_calc_loan,
        invalidated: false,
    }
}

/// A read older than what is cached for the pool is dropped, unless the
/// cached record has been invalidated.
pub open spec fn is_out_of_order(pools: Map<u64, PoolRecord>, pool_id: u64, block: u64) -> bool {
    pools.contains_key(pool_id) && !pools[pool_id].invalidated && block < pools[pool_id].last_synced_block
}

/// The record, marked invalid.
pub open spec fn invalidated(r: PoolRecord) -> PoolRecord {
    PoolRecord {
        pool_id: r.pool_id,
        reserve: r.reserve,
        minimum_liquidity: r.minimum_liquidity,
        last_synced_block: r.last_synced_block,
        last_synced_at: r.last_synced_at,
        excluded_from_availability_calc: r.excluded_from_availability_calc,
        excluded_from_loan_calc: r.excluded_from_loan_calc,
        invalidated: true,
    }
}

/// The pool map with the records of `ids` marked invalid.
pub open spec fn invalidate_pools(pools: Map<u64, PoolRecord>, ids: Set<u64>) -> Map<u64, PoolRecord> {
    pools.map_entries(|k: u64, r: PoolRecord| if ids.contains(k) { invalidated(r) } else { r })
}

/// The pool map after `apply(pool_id, reading, block, at)`.
pub open spec fn applied(
    pools: Map<u64, PoolRecord>,
    pool_id: u64,
    reading: PoolReading,
    block: u64,
    at: u64,
) -> Map<u64, PoolRecord> {
    if is_out_of_order(pools, pool_id, block) {
        pools
    } else {
        pools.insert(pool_id, record_of(pool_id, reading, block, at))
    }
}

/// The pool map after a sequence of reads `(pool_id, reading, block, at)`,
/// applied in order.
pub open spec fn applied_all(pools: Map<u64, PoolRecord>, reads: Seq<(u64, PoolReading, u64, u64)>) -> Map<
    u64,
    PoolRecord,
>
    decreases reads.len(),
{
    if reads.len() == 0 {
        pools
    } else {
        let last = reads.last();
        applied(applied_all(pools, reads.drop_last()), last.0, last.1, last.2, last.3)
    }
}

/// Whatever order reads arrive in, the block at which a pool is synced never
/// goes back: along any sequence of reads, once a pool is cached with a valid
/// record it stays so, and its `last_synced_block` after a longer prefix of
/// the sequence is no older than after a shorter one. A read from an older
/// block leaves the map as it was. (An invalidated record is the one
/// exception: the next read replaces it whatever its block.)
pub proof fn lemma_synced_block_never_decreases(
    pools: Map<u64, PoolRecord>,
    reads: Seq<(u64, PoolReading, u64, u64)>,
    pool_id: u64,
    i: int,
    j: int,
)
    requires
        0 <= i <= j <= reads.len(),
        applied_all(pools, reads.take(i)).contains_key(pool_id),
        !applied_all(pools, reads.take(i))[pool_id].invalidated,
    ensures
        applied_all(pools, reads.take(j)).contains_key(pool_id),
        !applied_all(pools, reads.take(j))[pool_id].invalidated,
        applied_all(pools, reads.take(i))[pool_id].last_synced_block <= applied_all(
            pools,
            reads.take(j),
        )[pool_id].last_synced_block,
        forall|k: int|
            0 <= k < reads.len() && is_out_of_order(applied_all(pools, reads.take(k)), reads[k].0, reads[k].2)
                ==> #[trigger] applied_all(pools, reads.take(k + 1)) == applied_all(pools, reads.take(k)),
    decreases j - i,
{
    assert forall|k: int|
        0 <= k < reads.len() && is_out_of_order(applied_all(pools, reads.take(k)), reads[k].0, reads[k].2)
            implies #[trigger] applied_all(pools, reads.take(k + 1)) == applied_all(pools, reads.take(k)) by {
        assert(reads.take(k + 1).drop_last() =~= reads.take(k));
        assert(reads.take(k + 1).last() == reads[k]);
    }
    if i < j {
        lemma_synced_block_never_decreases(pools, reads, pool_id, i, j - 1);
        assert(reads.take(j).drop_last() =~= reads.take(j - 1));
    }
}

/// Some read of the sequence concerns `pool_id`.
pub open spec fn reads_pool(reads: Seq<(u64, PoolReading, u64, u64)>, pool_id: u64) -> bool {
    exists|i: int| 0 <= i < reads.len() && (#[trigger] reads[i]).0 == pool_id
}

/// After any sequence of reads, a pool that was cached (validly) or read is
/// cached with a valid record whose block is the latest among the starting
/// record's and the reads' of that pool, and the record is either the
/// starting one or the one a read at that block yields.
pub proof fn lemma_reads_reach_latest_block(
    pools: Map<u64, PoolRecord>,
    reads: Seq<(u64, PoolReading, u64, u64)>,
    pool_id: u64,
)
    requires
        pools.contains_key(pool_id) ==> !pools[pool_id].invalidated,
    ensures
        !pools.contains_key(pool_id) && !reads_pool(reads, pool_id) ==> !applied_all(pools, reads).contains_key(
            pool_id,
        ),
        pools.contains_key(pool_id) || reads_pool(reads, pool_id) ==> {
            let r = applied_all(pools, reads)[pool_id];
            &&& applied_all(pools, reads).contains_key(pool_id)
            &&& !r.invalidated
            &&& pools.contains_key(pool_id) ==> r.last_synced_block >= pools[pool_id].last_synced_block
            &&& forall|i: int|
                0 <= i < reads.len() && (#[trigger] reads[i]).0 == pool_id ==> r.last_synced_block >= reads[i].2
            &&& (pools.contains_key(pool_id) && r == pools[pool_id]) || exists|i: int|
                0 <= i < reads.len() && (#[trigger] reads[i]).0 == pool_id && r == record_of(
                    pool_id,
                    reads[i].1,
                    reads[i].2,
                    reads[i].3,
                )
        },
    decreases reads.len(),
{
    if reads.len() > 0 {
        let prev = reads.drop_last();
        let n = reads.len() - 1;
        lemma_reads_reach_latest_block(pools, prev, pool_id);
        let p = applied_all(pools, prev);
        let last = reads.last();
        assert(last == reads[n]);
        assert forall|i: int| 0 <= i < prev.len() implies #[trigger] prev[i] == reads[i] by {}
        if reads_pool(prev, pool_id) {
            let i = choose|i: int| 0 <= i < prev.len() && (#[trigger] prev[i]).0 == pool_id;
            assert(reads[i].0 == pool_id);
        }
        if last.0 == pool_id {
            assert(reads_pool(reads, pool_id));
        }
        if reads_pool(reads, pool_id) && last.0 != pool_id {
            let i = choose|i: int| 0 <= i < reads.len() && (#[trigger] reads[i]).0 == pool_id;
            assert(i != n);
            assert(prev[i].0 == pool_id);
        }
        if pools.contains_key(pool_id) || reads_pool(reads, pool_id) {
            let r = applied_all(pools, reads)[pool_id];
            if last.0 == pool_id && !is_out_of_order(p, pool_id, last.2) {
                assert(r == record_of(pool_id, reads[n].1, reads[n].2, reads[n].3));
            } else {
                assert(r == p[pool_id]);
                if !(pools.contains_key(pool_id) && r == pools[pool_id]) {
                    let i = choose|i: int|
                        0 <= i < prev.len() && (#[trigger] prev[i]).0 == pool_id && p[pool_id] == record_of(
                            pool_id,
                            prev[i].1,
                            prev[i].2,
                            prev[i].3,
                        );
                    assert(reads[i] == prev[i]);
                }
            }
            assert forall|i: int| 0 <= i < reads.len() && (#[trigger] reads[i]).0 == pool_id implies r.last_synced_block
                >= reads[i].2 by {
                if i < n {
                    assert(prev[i] == reads[i]);
                }
            }
        }
    }
}

/// The order in which reads arrive does not matter: two sequences holding
/// the same reads, applied to the same cache, leave the same block for every
/// pool that was cached validly or read; and when the reads of that pool are
/// at distinct blocks, all different from the cached one, the same record.
pub proof fn lemma_read_order_is_irrelevant(
    pools: Map<u64, PoolRecord>,
    reads1: Seq<(u64, PoolReading, u64, u64)>,
    reads2: Seq<(u64, PoolReading, u64, u64)>,
    pool_id: u64,
)
    requires
        pools.contains_key(pool_id) ==> !pools[pool_id].invalidated,
        forall|x: (u64, PoolReading, u64, u64)| reads1.contains(x) <==> reads2.contains(x),
        pools.contains_key(pool_id) || reads_pool(reads1, pool_id),
    ensures
        applied_all(pools, reads1).contains_key(pool_id),
        applied_all(pools, reads2).contains_key(pool_id),
        applied_all(pools, reads1)[pool_id].last_synced_block == applied_all(
            pools,
            reads2,
        )[pool_id].last_synced_block,
        (forall|x: (u64, PoolReading, u64, u64), y: (u64, PoolReading, u64, u64)|
            #![trigger reads1.contains(x), reads1.contains(y)]
            reads1.contains(x) && reads1.contains(y) && x.0 == pool_id && y.0 == pool_id && x.2 == y.2 ==> x == y)
            && (pools.contains_key(pool_id) ==> forall|x: (u64, PoolReading, u64, u64)|
            #![trigger reads1.contains(x)]
            reads1.contains(x) && x.0 == pool_id ==> x.2 != pools[pool_id].last_synced_block) ==> applied_all(
            pools,
            reads1,
        )[pool_id] == applied_all(pools, reads2)[pool_id],
{
    if reads_pool(reads1, pool_id) {
        let i = choose|i: int| 0 <= i < reads1.len() && (#[trigger] reads1[i]).0 == pool_id;
        assert(reads1.contains(reads1[i]));
        let j = choose|j: int| 0 <= j < reads2.len() && reads2[j] == reads1[i];
        assert(reads2[j].0 == pool_id);
    }
    lemma_reads_reach_latest_block(pools, reads1, pool_id);
    lemma_reads_reach_latest_block(pools, reads2, pool_id);
    let r1 = applied_all(pools, reads1)[pool_id];
    let r2 = applied_all(pools, reads2)[pool_id];
    // each final block is reached by a read (or the start) that the other side also saw
    if !(pools.contains_key(pool_id) && r1 == pools[pool_id]) {
        let i = choose|i: int|
            0 <= i < reads1.len() && (#[trigger] reads1[i]).0 == pool_id && r1 == record_of(
                pool_id,
                reads1[i].1,
                reads1[i].2,
                reads1[i].3,
            );
        assert(reads1.contains(reads1[i]));
        let j = choose|j: int| 0 <= j < reads2.len() && reads2[j] == reads1[i];
        assert(r2.last_synced_block >= reads2[j].2);
    }
    if !(pools.contains_key(pool_id) && r2 == pools[pool_id]) {
        let j = choose|j: int|
            0 <= j < reads2.len() && (#[trigger] reads2[j]).0 == pool_id && r2 == record_of(
                pool_id,
                reads2[j].1,
                reads2[j].2,
                reads2[j].3,
            );
        assert(reads2.contains(reads2[j]));
        let i = choose|i: int| 0 <= i < reads1.len() && reads1[i] == reads2[j];
        assert(r1.last_synced_block >= reads1[i].2);
    }
    if (forall|x: (u64, PoolReading, u64, u64), y: (u64, PoolReading, u64, u64)|
        #![trigger reads1.contains(x), reads1.contains(y)]
        reads1.contains(x) && reads1.contains(y) && x.0 == pool_id && y.0 == pool_id && x.2 == y.2 ==> x == y) && (
    pools.contains_key(pool_id) ==> forall|x: (u64, PoolReading, u64, u64)|
        #![trigger reads1.contains(x)]
        reads1.contains(x) && x.0 == pool_id ==> x.2 != pools[pool_id].last_synced_block) {
        if pools.contains_key(pool_id) && r1 == pools[pool_id] {
            if !(r2 == pools[pool_id]) {
                let j = choose|j: int|
                    0 <= j < reads2.len() && (#[trigger] reads2[j]).0 == pool_id && r2 == record_of(
                        pool_id,
                        reads2[j].1,
                        reads2[j].2,
                        reads2[j].3,
                    );
                assert(reads2.contains(reads2[j]));
                assert(reads1.contains(reads2[j]));
            }
        } else {
            let i = choose|i: int|
                0 <= i < reads1.len() && (#[trigger] reads1[i]).0 == pool_id && r1 == record_of(
                    pool_id,
                    reads1[i].1,
                    reads1[i].2,
                    reads1[i].3,
                );
            assert(reads1.contains(reads1[i]));
            if pools.contains_key(pool_id) && r2 == pools[pool_id] {
                assert(false);
            } else {
                let j = choose|j: int|
                    0 <= j < reads2.len() && (#[trigger] reads2[j]).0 == pool_id && r2 == record_of(
                        pool_id,
                        reads2[j].1,
                        reads2[j].2,
                        reads2[j].3,
                    );
                assert(reads2.contains(reads2[j]));
                assert(reads1.contains(reads2[j]));
                assert(reads1[i] == reads2[j]);
            }
        }
    }
}

/// The pool holds at least its minimum liquidity.
pub open spec fn meets_minimum(r: PoolRecord) -> bool {
    r.minimum_liquidity@ <= r.reserve@
}

pub open spec fn excluded_from(r: PoolRecord, kind: CalcKind) -> bool {
    match kind {
        CalcKind::Availability => r.excluded_from_availability_calc,
        CalcKind::Loan => r.excluded_from_loan_calc,
    }
}

/// The pool may back an opportunity of this kind.
pub open spec fn admits(r: PoolRecord, kind: CalcKind) -> bool {
    !r.invalidated && meets_minimum(r) && !excluded_from(r, kind)
}

/// The refresh that two timers call for at `now`; the full one wins.
pub open spec fn refresh_kind_at(full: Timer, hot: Timer, now: u64) -> RefreshKind {
    if full.due_at(now) {
        RefreshKind::Full
    } else if hot.due_at(now) {
        RefreshKind::Partial
    } else {
        RefreshKind::Nothing
    }
}

/// Last-known state of every tracked pool, and the two refresh timers.
pub struct PoolStateCache {
    pools: KeyTable<PoolRecord>,
    hot_timer: Timer,
    full_timer: Timer,
}

impl View for PoolStateCache {
    type V = Map<u64, PoolRecord>;

    closed spec fn view(&self) -> Map<u64, PoolRecord> {
        self.pools@
    }
}

impl PoolStateCache {
    pub closed spec fn wf(&self) -> bool {
        &&& self.pools.wf()
        &&& forall|k: u64| #[trigger] self.pools@.contains_key(k) ==> self.pools@[k].pool_id == k
    }

    /// Pool ids in the order they were first cached.
    pub closed spec fn pool_order(&self) -> Seq<u64> {
        self.pools.key_seq()
    }

    pub closed spec fn hot_timer(&self) -> Timer {
        self.hot_timer
    }

    pub closed spec fn full_timer(&self) -> Timer {
        self.full_timer
    }

    /// An empty cache that polls the hot pools every `hot_interval` seconds
    /// and re-reads everything every `full_interval` seconds.
    pub fn new(hot_interval: u64, full_interval: u64) -> (c: Self)
        ensures
            c.wf(),
            c@ == Map::<u64, PoolRecord>::empty(),
            c.hot_timer() == Timer::new_spec(hot_interval),
            c.full_timer() == Timer::new_spec(full_interval),
    {
        PoolStateCache {
            pools: KeyTable::new(),
            hot_timer: Timer::new(hot_interval),
            full_timer: Timer::new(full_interval),
        }
    }

    pub fn len(&self) -> (n: usize)
        requires
            self.wf(),
        ensures
            n == self.pool_order().len(),
    {
        self.pools.len()
    }

    pub fn pool_at(&self, i: usize) -> (r: PoolRecord)
        requires
            self.wf(),
            i < self.pool_order().len(),
        ensures
            self@.contains_key(self.pool_order()[i as int]),
            r == self@[self.pool_order()[i as int]],
            r.pool_id == self.pool_order()[i as int],
    {
        *self.pools.value_at(i)
    }

    pub fn get(&self, pool_id: u64) -> (r: Option<PoolRecord>)
        requires
            self.wf(),
        ensures
            r == (if self@.contains_key(pool_id) {
                Some(self@[pool_id])
            } else {
                None::<PoolRecord>
            }),
    {
        match self.pools.get(pool_id) {
            Some(r) => Some(*r),
            None => None,
        }
    }

    /// Stores a read of `pool_id` taken at `block` and received at time `at`,
    /// unless the cache already holds a read from a later block.
    pub fn apply(&mut self, pool_id: u64, reading: PoolReading, block: u64, at: u64) -> (r: Result<(), ReadError>)
        requires
            old(self).wf(),
        ensures
            final(self).wf(),
            final(self)@ == applied(old(self)@, pool_id, reading, block, at),
            final(self).hot_timer() == old(self).hot_timer(),
            final(self).full_timer() == old(self).full_timer(),
            is_out_of_order(old(self)@, pool_id, block) ==> r == Err::<(), ReadError>(
                ReadError::OutOfOrder {
                    stored_block: old(self)@[pool_id].last_synced_block,
                    read_block: block,
                },
            ),
            !is_out_of_order(old(self)@, pool_id, block) ==> r is Ok,
    {
        if let Some(stored) = self.pools.get(pool_id) {
            if !stored.invalidated && block < stored.last_synced_block {
                return Err(ReadError::OutOfOrder { stored_block: stored.last_synced_block, read_block: block });
            }
        }
        let record = PoolRecord {
            pool_id,
            reserve: reading.reserve,
            minimum_liquidity: reading.minimum_liquidity,
            last_synced_block: block,
            last_synced_at: at,
            excluded_from_availability_calc: reading.ignore_calc_available,
            excluded_from_loan_calc: reading.ignore_calc_loan,
            invalidated: false,
        };
        self.pools.insert(pool_id, record);
        Ok(())
    }

    /// Whether the pool is cached with a valid record, holds its minimum
    /// liquidity and is not excluded from computations of this kind.
    pub fn admits(&self, pool_id: u64, kind: CalcKind) -> (r: bool)
        requires
            self.wf(),
        ensures
            r == (self@.contains_key(pool_id) && admits(self@[pool_id], kind)),
    {
        match self.pools.get(pool_id) {
            Some(p) => {
                let excluded = match kind {
                    CalcKind::Availability => p.excluded_from_availability_calc,
                    CalcKind::Loan => p.excluded_from_loan_calc,
                };
                !p.invalidated && p.minimum_liquidity.le(&p.reserve) && !excluded
            },
            None => false,
        }
    }

    pub fn refresh_due(&self, now: u64) -> (r: RefreshKind)
        ensures
            r == refresh_kind_at(self.full_timer(), self.hot_timer(), now),
    {
        if self.full_timer.is_due(now) {
            RefreshKind::Full
        } else if self.hot_timer.is_due(now) {
            RefreshKind::Partial
        } else {
            RefreshKind::Nothing
        }
    }

    /// Restarts the timers that a refresh of this kind, begun at `now`, satisfies:
    /// a full refresh re-reads the hot pools too.
    pub fn mark_refreshed(&mut self, kind: RefreshKind, now: u64)
        requires
            old(self).wf(),
        ensures
            final(self).wf(),
            final(self)@ == old(self)@,
            final(self).pool_order() == old(self).pool_order(),
            kind == RefreshKind::Nothing ==> final(self).hot_timer() == old(self).hot_timer(),
            kind != RefreshKind::Nothing ==> final(self).hot_timer() == old(self).hot_timer().restarted(now),
            kind == RefreshKind::Full ==> final(self).full_timer() == old(self).full_timer().restarted(now),
            kind != RefreshKind::Full ==> final(self).full_timer() == old(self).full_timer(),
    {
        match kind {
            RefreshKind::Nothing => {},
            RefreshKind::Partial => {
                self.hot_timer.restart(now);
            },
            RefreshKind::Full => {
                self.hot_timer.restart(now);
                self.full_timer.restart(now);
            },
        }
    }

    /// Marks the records of `ids` invalid, keeping them in place: nothing is
    /// deleted, the next read of such a pool replaces its record.
    pub fn invalidate_all(&mut self, ids: &Vec<u64>)
        requires
            old(self).wf(),
        ensures
            final(self).wf(),
            final(self)@ == invalidate_pools(old(self)@, ids@.to_set()),
            final(self).hot_timer() == old(self).hot_timer(),
            final(self).full_timer() == old(self).full_timer(),
    {
        let ghost start = self@;
        let mut i: usize = 0;
        proof {
            assert(ids@.take(0).to_set() =~= Set::<u64>::empty());
            assert(start =~= invalidate_pools(start, Set::<u64>::empty()));
        }
        while i < ids.len()
            invariant
                self.wf(),
                self.hot_timer == old(self).hot_timer,
                self.full_timer == old(self).full_timer,
                0 <= i <= ids@.len(),
                self@ == invalidate_pools(start, ids@.take(i as int).to_set()),
            decreases ids@.len() - i,
        {
            let k = ids[i];
            let ghost before = self@;
            if let Some(r) = self.pools.get(k) {
                let mut marked = *r;
                marked.invalidated = true;
                self.pools.insert(k, marked);
            }
            proof {
                let pre = ids@.take(i as int);
                assert(ids@.take(i + 1) =~= pre.push(k));
                pre.lemma_push_to_set_commute(k);
                assert(self@ =~= invalidate_pools(start, ids@.take(i + 1).to_set()));
            }
            i = i + 1;
        }
        proof {
            assert(ids@.take(ids@.len() as int) =~= ids@);
        }
    }
}

} // verus!
