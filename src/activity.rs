use vstd::prelude::*;
use crate::schedule::{saturating_sum, Timer};
use crate::table::KeyTable;

verus! {

/// How recently and how often a pool or position has been touched.
#[derive(Clone, Copy, Debug, PartialEq, Eq, Structural)]
pub struct ActivityEntry {
    pub activity_score: u64,
    pub last_touched_at: u64,
}

/// The entry after a touch at `now`: the score goes up by one (held at
/// `u64::MAX`) and the touch time never moves back.
pub open spec fn touched_entry(m: Map<u64, ActivityEntry>, key: u64, now: u64) -> ActivityEntry {
    if m.contains_key(key) {
        let e = m[key];
        ActivityEntry {
            activity_score: saturating_sum(e.activity_score, 1),
            last_touched_at: if now > e.last_touched_at { now } else { e.last_touched_at },
        }
    } else {
        ActivityEntry { activity_score: 1, last_touched_at: now }
    }
}

/// Untouched for longer than the horizon at `now`.
pub open spec fn is_cold(e: ActivityEntry, now: u64, horizon: u64) -> bool {
    e.last_touched_at + horizon < now
}

/// What a cleanup at `now` keeps.
pub open spec fn warm_entries(m: Map<u64, ActivityEntry>, now: u64, horizon: u64) -> Map<u64, ActivityEntry> {
    m.restrict(m.dom().filter(|k: u64| !is_cold(m[k], now, horizon)))
}

/// Activity scores of tracked pools and positions, with periodic eviction of
/// the ones that went cold. The cleanup cadence is also the eviction horizon.
pub struct ActivityLedger {
    entries: KeyTable<ActivityEntry>,
    cleanup_timer: Timer,
}

impl View for ActivityLedger {
    type V = Map<u64, ActivityEntry>;

    closed spec fn view(&self) -> Map<u64, ActivityEntry> {
        self.entries@
    }
}

impl ActivityLedger {
    pub closed spec fn wf(&self) -> bool {
        self.entries.wf()
    }

    pub closed spec fn cleanup_timer(&self) -> Timer {
        self.cleanup_timer
    }

    pub fn new(cleanup_interval: u64) -> (l: Self)
        ensures
            l.wf(),
            l@ == Map::<u64, ActivityEntry>::empty(),
            l.cleanup_timer() == Timer::new_spec(cleanup_interval),
    {
        ActivityLedger { entries: KeyTable::new(), cleanup_timer: Timer::new(cleanup_interval) }
    }

    pub fn get(&self, key: u64) -> (r: Option<ActivityEntry>)
        requires
            self.wf(),
        ensures
            r == (if self@.contains_key(key) {
                Some(self@[key])
            } else {
                None::<ActivityEntry>
            }),
    {
        match self.entries.get(key) {
            Some(e) => Some(*e),
            None => None,
        }
    }

    /// Records activity on `key` at time `now`.
    pub fn touch(&mut self, key: u64, now: u64)
        requires
            old(self).wf(),
        ensures
            final(self).wf(),
            final(self)@ == old(self)@.insert(key, touched_entry(old(self)@, key, now)),
            final(self).cleanup_timer() == old(self).cleanup_timer(),
            old(self)@.contains_key(key) ==> final(self)@[key].activity_score >= old(self)@[key].activity_score,
            old(self)@.contains_key(key) ==> final(self)@[key].last_touched_at >= old(self)@[key].last_touched_at,
    {
        let e = match self.entries.get(key) {
            Some(e) => ActivityEntry {
                activity_score: e.activity_score.saturating_add(1),
                last_touched_at: if now > e.last_touched_at { now } else { e.last_touched_at },
            },
            None => ActivityEntry { activity_score: 1, last_touched_at: now },
        };
        self.entries.insert(key, e);
    }

    pub fn cleanup_due(&self, now: u64) -> (r: bool)
        ensures
            r == self.cleanup_timer().due_at(now),
    {
        self.cleanup_timer.is_due(now)
    }

    /// Evicts every entry untouched for longer than the horizon at `now`,
    /// restarts the cleanup timer, and returns the evicted keys.
    pub fn cleanup(&mut self, now: u64) -> (evicted: Vec<u64>)
        requires
            old(self).wf(),
        ensures
            final(self).wf(),
            final(self)@ == warm_entries(old(self)@, now, old(self).cleanup_timer().interval),
            final(self).cleanup_timer() == old(self).cleanup_timer().restarted(now),
            evicted@.no_duplicates(),
            forall|k: u64|
                evicted@.contains(k) <==> old(self)@.contains_key(k) && is_cold(
                    old(self)@[k],
                    now,
                    old(self).cleanup_timer().interval,
                ),
    {
        let ghost start = self.entries@;
        let horizon = self.cleanup_timer.interval;
        let mut evicted: Vec<u64> = Vec::new();
        let n = self.entries.len();
        let mut i: usize = 0;
        proof {
            self.entries.lemma_keys();
        }
        while i < n
            invariant
                self.entries.wf(),
                self.entries@ == start,
                self.cleanup_timer == old(self).cleanup_timer,
                horizon == self.cleanup_timer.interval,
                n == self.entries.key_seq().len(),
                self.entries.key_seq().no_duplicates(),
                forall|k: u64| #[trigger] start.contains_key(k) <==> self.entries.key_seq().contains(k),
                0 <= i <= n,
                evicted@.no_duplicates(),
                forall|k: u64|
                    evicted@.contains(k) <==> exists|j: int|
                        0 <= j < i && #[trigger] self.entries.key_seq()[j] == k && is_cold(start[k], now, horizon),
            decreases n - i,
        {
            let k = self.entries.key_at(i);
            let e = *self.entries.value_at(i);
            let ghost before = evicted@;
            if e.last_touched_at.saturating_add(horizon) < now {
                proof {
                    assert(!evicted@.contains(k)) by {
                        if evicted@.contains(k) {
                            let j = choose|j: int|
                                0 <= j < i && #[trigger] self.entries.key_seq()[j] == k && is_cold(
                                    start[k],
                                    now,
                                    horizon,
                                );
                            assert(self.entries.key_seq()[j] == self.entries.key_seq()[i as int]);
                        }
                    }
                }
                evicted.push(k);
                proof {
                    assert(e == start[k]);
                    assert forall|kk: u64| #[trigger] before.contains(kk) implies evicted@.contains(kk) by {
                        let x = choose|x: int| 0 <= x < before.len() && before[x] == kk;
                        assert(evicted@[x] == kk);
                    }
                    assert forall|kk: u64|
                        evicted@.contains(kk) <==> exists|j: int|
                            0 <= j < i + 1 && #[trigger] self.entries.key_seq()[j] == kk && is_cold(
                                start[kk],
                                now,
                                horizon,
                            ) by {
                        if kk == k {
                            assert(self.entries.key_seq()[i as int] == kk);
                            assert(evicted@[evicted@.len() - 1] == kk);
                        } else {
                            if evicted@.contains(kk) {
                                let x = choose|x: int| 0 <= x < evicted@.len() && evicted@[x] == kk;
                                assert(x < evicted@.len() - 1);
                                assert(before[x] == kk);
                                assert(before.contains(kk));
                            }
                            if exists|j: int|
                                0 <= j < i + 1 && #[trigger] self.entries.key_seq()[j] == kk && is_cold(
                                    start[kk],
                                    now,
                                    horizon,
                                ) {
                                let j = choose|j: int|
                                    0 <= j < i + 1 && #[trigger] self.entries.key_seq()[j] == kk && is_cold(
                                        start[kk],
                                        now,
                                        horizon,
                                    );
                                assert(j != i);
                                assert(before.contains(kk));
                            }
                        }
                    }
                }
            } else {
                proof {
                    assert(e == start[k]);
                    assert forall|kk: u64|
                        evicted@.contains(kk) <==> exists|j: int|
                            0 <= j < i + 1 && #[trigger] self.entries.key_seq()[j] == kk && is_cold(
                                start[kk],
                                now,
                                horizon,
                            ) by {
                        if exists|j: int|
                            0 <= j < i + 1 && #[trigger] self.entries.key_seq()[j] == kk && is_cold(
                                start[kk],
                                now,
                                horizon,
                            ) {
                            let j = choose|j: int|
                                0 <= j < i + 1 && #[trigger] self.entries.key_seq()[j] == kk && is_cold(
                                    start[kk],
                                    now,
                                    horizon,
                                );
                            assert(j != i);
                        }
                    }
                }
            }
            i = i + 1;
        }
        self.entries.remove_keys(&evicted);
        self.cleanup_timer.restart(now);
        proof {
            let target = warm_entries(start, now, horizon);
            assert forall|k: u64| evicted@.to_set().contains(k) <==> evicted@.contains(k) by {}
            assert(self.entries@ =~= target);
        }
        evicted
    }
}

} // verus!
