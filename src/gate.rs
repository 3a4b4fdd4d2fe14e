use vstd::prelude::*;
use crate::table::KeyTable;

verus! {

/// How an in-flight submission ended.
#[derive(Clone, Copy, Debug, PartialEq, Eq, Structural)]
pub enum Outcome {
    Confirmed,
    Failed,
    Expired,
}

/// One submission that has been admitted and not yet resolved.
#[derive(Clone, Copy, Debug, PartialEq, Eq, Structural)]
pub struct InFlight {
    pub submitted_block: u64,
    pub submitted_at: u64,
    /// Tells this admission apart from earlier ones of the same key.
    pub admission: u64,
}

#[derive(Clone, Copy, Debug, PartialEq, Eq, Structural)]
pub enum GateError {
    /// A submission for this key is already in flight.
    AlreadyInFlight,
    /// The admission was already resolved or expired.
    NotInFlight,
}

/// Proof of one admission of a key, to be handed back to `resolve`.
pub struct AdmissionToken {
    key: u64,
    admission: u64,
}

impl AdmissionToken {
    pub closed spec fn key_spec(&self) -> u64 {
        self.key
    }

    pub closed spec fn admission_spec(&self) -> u64 {
        self.admission
    }

    pub fn key(&self) -> (r: u64)
        ensures
            r == self.key_spec(),
    {
        self.key
    }

    /// The number that tells this admission apart from earlier ones of its key.
    pub fn admission(&self) -> (r: u64)
        ensures
            r == self.admission_spec(),
    {
        self.admission
    }
}

/// An entry expires once the chain is more than `grace` blocks past the
/// block it was submitted at.
pub open spec fn has_expired(entry: InFlight, current_block: u64, grace: u64) -> bool {
    entry.submitted_block + grace < current_block
}

/// The token resolves the entry that is in flight for its key.
pub open spec fn token_matches(m: Map<u64, InFlight>, key: u64, admission: u64) -> bool {
    m.contains_key(key) && m[key].admission == admission
}

/// What stays in flight after expiring at `current_block`.
pub open spec fn unexpired(m: Map<u64, InFlight>, current_block: u64, grace: u64) -> Map<u64, InFlight> {
    m.restrict(m.dom().filter(|k: u64| !has_expired(m[k], current_block, grace)))
}

/// An admission of `key` is refused with `AlreadyInFlight` exactly when the
/// key is in flight.
pub open spec fn admission_refused(m: Map<u64, InFlight>, key: u64) -> bool {
    m.contains_key(key)
}

/// Once a key has been admitted, any number of admissions of any keys later,
/// with no resolution or expiry between, admitting that key again fails with
/// `AlreadyInFlight`: the in-flight map still holds it.
pub proof fn lemma_second_admission_fails(m: Map<u64, InFlight>, key: u64, entry: InFlight, later: Seq<(u64, InFlight)>)
    requires
        !m.contains_key(key),
    ensures
        admitted_all(m.insert(key, entry), later).contains_key(key),
        admission_refused(admitted_all(m.insert(key, entry), later), key),
    decreases later.len(),
{
    if later.len() > 0 {
        lemma_second_admission_fails(m, key, entry, later.drop_last());
    }
}

/// The in-flight map after a sequence of admissions `(key, entry)`; an
/// admission of a key already in flight changes nothing.
pub open spec fn admitted_all(m: Map<u64, InFlight>, admissions: Seq<(u64, InFlight)>) -> Map<u64, InFlight>
    decreases admissions.len(),
{
    if admissions.len() == 0 {
        m
    } else {
        let prev = admitted_all(m, admissions.drop_last());
        let (k, e) = admissions.last();
        if prev.contains_key(k) {
            prev
        } else {
            prev.insert(k, e)
        }
    }
}

/// At most one submission in flight per opportunity key.
pub struct SubmissionGate {
    in_flight: KeyTable<InFlight>,
    grace_blocks: u64,
    next_admission: u64,
}

impl View for SubmissionGate {
    type V = Map<u64, InFlight>;

    closed spec fn view(&self) -> Map<u64, InFlight> {
        self.in_flight@
    }
}

impl SubmissionGate {
    pub closed spec fn wf(&self) -> bool {
        self.in_flight.wf()
    }

    pub closed spec fn grace_blocks(&self) -> u64 {
        self.grace_blocks
    }

    /// A gate with nothing in flight, whose entries expire `grace_blocks`
    /// blocks after submission.
    pub fn new(grace_blocks: u64) -> (g: Self)
        ensures
            g.wf(),
            g@ == Map::<u64, InFlight>::empty(),
            g.grace_blocks() == grace_blocks,
    {
        SubmissionGate { in_flight: KeyTable::new(), grace_blocks, next_admission: 0 }
    }

    pub fn is_in_flight(&self, key: u64) -> (r: bool)
        requires
            self.wf(),
        ensures
            r == self@.contains_key(key),
    {
        self.in_flight.contains_key(key)
    }

    /// Admits a submission for `key` at `block` and time `now`, or fails with
    /// `AlreadyInFlight`, changing nothing, if one is in flight.
    pub fn try_admit(&mut self, key: u64, block: u64, now: u64) -> (r: Result<AdmissionToken, GateError>)
        requires
            old(self).wf(),
        ensures
            final(self).wf(),
            final(self).grace_blocks() == old(self).grace_blocks(),
            r is Err <==> admission_refused(old(self)@, key),
            old(self)@.contains_key(key) ==> r == Err::<AdmissionToken, GateError>(GateError::AlreadyInFlight)
                && final(self)@ == old(self)@,
            !old(self)@.contains_key(key) ==> (r matches Ok(t) && t.key_spec() == key
                && final(self)@.dom() == old(self)@.dom().insert(key)
                && final(self)@ == old(self)@.insert(key, final(self)@[key])
                && final(self)@[key].submitted_block == block
                && final(self)@[key].submitted_at == now
                && token_matches(final(self)@, key, t.admission_spec())),
    {
        if self.in_flight.contains_key(key) {
            return Err(GateError::AlreadyInFlight);
        }
        let admission = self.next_admission;
        self.next_admission = self.next_admission.wrapping_add(1);
        self.in_flight.insert(key, InFlight { submitted_block: block, submitted_at: now, admission });
        proof {
            assert(self.in_flight@.dom() =~= old(self).in_flight@.dom().insert(key));
        }
        Ok(AdmissionToken { key, admission })
    }

    /// Ends the admission that `token` stands for: confirmed, failed or given
    /// up as expired. The key can then be admitted again.
    pub fn resolve(&mut self, token: AdmissionToken, outcome: Outcome) -> (r: Result<Outcome, GateError>)
        requires
            old(self).wf(),
        ensures
            final(self).wf(),
            final(self).grace_blocks() == old(self).grace_blocks(),
            token_matches(old(self)@, token.key_spec(), token.admission_spec()) ==> r == Ok::<Outcome, GateError>(
                outcome,
            ) && final(self)@ == old(self)@.remove(token.key_spec()),
            !token_matches(old(self)@, token.key_spec(), token.admission_spec()) ==> r == Err::<
                Outcome,
                GateError,
            >(GateError::NotInFlight) && final(self)@ == old(self)@,
    {
        match self.in_flight.get(token.key) {
            Some(entry) => {
                if entry.admission != token.admission {
                    return Err(GateError::NotInFlight);
                }
            },
            None => {
                return Err(GateError::NotInFlight);
            },
        }
        let _ = self.in_flight.remove(token.key);
        Ok(outcome)
    }

    /// Drops every entry more than the grace window old at `current_block`
    /// and returns their keys.
    pub fn expire(&mut self, current_block: u64) -> (expired: Vec<u64>)
        requires
            old(self).wf(),
        ensures
            final(self).wf(),
            final(self).grace_blocks() == old(self).grace_blocks(),
            final(self)@ == unexpired(old(self)@, current_block, old(self).grace_blocks()),
            expired@.no_duplicates(),
            forall|k: u64|
                expired@.contains(k) <==> old(self)@.contains_key(k) && has_expired(
                    old(self)@[k],
                    current_block,
                    old(self).grace_blocks(),
                ),
    {
        let ghost start = self.in_flight@;
        let grace = self.grace_blocks;
        let mut expired: Vec<u64> = Vec::new();
        let n = self.in_flight.len();
        let mut i: usize = 0;
        proof {
            self.in_flight.lemma_keys();
        }
        while i < n
            invariant
                self.in_flight.wf(),
                self.in_flight@ == start,
                self.grace_blocks == grace,
                n == self.in_flight.key_seq().len(),
                self.in_flight.key_seq().no_duplicates(),
                forall|k: u64| #[trigger] start.contains_key(k) <==> self.in_flight.key_seq().contains(k),
                0 <= i <= n,
                expired@.no_duplicates(),
                forall|k: u64|
                    expired@.contains(k) <==> exists|j: int|
                        0 <= j < i && #[trigger] self.in_flight.key_seq()[j] == k && has_expired(
                            start[k],
                            current_block,
                            grace,
                        ),
            decreases n - i,
        {
            let k = self.in_flight.key_at(i);
            let entry = *self.in_flight.value_at(i);
            if entry.submitted_block.saturating_add(grace) < current_block {
                proof {
                    assert(!expired@.contains(k)) by {
                        if expired@.contains(k) {
                            let j = choose|j: int|
                                0 <= j < i && #[trigger] self.in_flight.key_seq()[j] == k && has_expired(
                                    start[k],
                                    current_block,
                                    grace,
                                );
                            assert(self.in_flight.key_seq()[j] == self.in_flight.key_seq()[i as int]);
                        }
                    }
                }
                let ghost before = expired@;
                expired.push(k);
                proof {
                    assert(entry == start[k]);
                    assert(has_expired(start[k], current_block, grace));
                    assert forall|kk: u64| #[trigger] before.contains(kk) implies expired@.contains(kk) by {
                        let e = choose|e: int| 0 <= e < before.len() && before[e] == kk;
                        assert(expired@[e] == kk);
                    }
                    assert forall|kk: u64|
                        expired@.contains(kk) <==> exists|j: int|
                            0 <= j < i + 1 && #[trigger] self.in_flight.key_seq()[j] == kk && has_expired(
                                start[kk],
                                current_block,
                                grace,
                            ) by {
                        if kk == k {
                            assert(self.in_flight.key_seq()[i as int] == kk);
                            assert(expired@[expired@.len() - 1] == kk);
                        }
                        if expired@.contains(kk) && kk != k {
                            let e = choose|e: int| 0 <= e < expired@.len() && expired@[e] == kk;
                            assert(e < expired@.len() - 1);
                            assert(before[e] == kk);
                            assert(before.contains(kk));
                        }
                        if kk != k && exists|j: int|
                            0 <= j < i + 1 && #[trigger] self.in_flight.key_seq()[j] == kk && has_expired(
                                start[kk],
                                current_block,
                                grace,
                            ) {
                            let j = choose|j: int|
                                0 <= j < i + 1 && #[trigger] self.in_flight.key_seq()[j] == kk && has_expired(
                                    start[kk],
                                    current_block,
                                    grace,
                                );
                            assert(j != i);
                            assert(before.contains(kk));
                        }
                    }
                }
            } else {
                proof {
                    assert(entry == start[k]);
                    assert(!has_expired(start[k], current_block, grace));
                    assert forall|kk: u64|
                        expired@.contains(kk) <==> exists|j: int|
                            0 <= j < i + 1 && #[trigger] self.in_flight.key_seq()[j] == kk && has_expired(
                                start[kk],
                                current_block,
                                grace,
                            ) by {
                        if exists|j: int|
                            0 <= j < i + 1 && #[trigger] self.in_flight.key_seq()[j] == kk && has_expired(
                                start[kk],
                                current_block,
                                grace,
                            ) {
                            let j = choose|j: int|
                                0 <= j < i + 1 && #[trigger] self.in_flight.key_seq()[j] == kk && has_expired(
                                    start[kk],
                                    current_block,
                                    grace,
                                );
                            assert(j != i);
                            assert(exists|j: int|
                                0 <= j < i && #[trigger] self.in_flight.key_seq()[j] == kk && has_expired(
                                    start[kk],
                                    current_block,
                                    grace,
                                ));
                        }
                        if expired@.contains(kk) {
                            let j = choose|j: int|
                                0 <= j < i && #[trigger] self.in_flight.key_seq()[j] == kk && has_expired(
                                    start[kk],
                                    current_block,
                                    grace,
                                );
                            assert(0 <= j < i + 1);
                        }
                    }
                }
            }
            i = i + 1;
        }
        let mut r: usize = 0;
        while r < expired.len()
            invariant
                self.in_flight.wf(),
                self.grace_blocks == grace,
                0 <= r <= expired@.len(),
                expired@.no_duplicates(),
                forall|k: u64|
                    #[trigger] self.in_flight@.contains_key(k) <==> start.contains_key(k) && !(exists|e: int|
                        0 <= e < r && expired@[e] == k),
                forall|k: u64| #[trigger] self.in_flight@.contains_key(k) ==> self.in_flight@[k] == start[k],
            decreases expired@.len() - r,
        {
            let k = expired[r];
            let _ = self.in_flight.remove(k);
            proof {
                assert forall|kk: u64|
                    #[trigger] self.in_flight@.contains_key(kk) <==> start.contains_key(kk) && !(exists|e: int|
                        0 <= e < r + 1 && expired@[e] == kk) by {
                    if kk == k {
                        assert(expired@[r as int] == kk);
                    }
                }
            }
            r = r + 1;
        }
        proof {
            let target = unexpired(start, current_block, grace);
            assert forall|k: u64| self.in_flight@.contains_key(k) <==> target.contains_key(k) by {
                if expired@.contains(k) {
                    let e = choose|e: int| 0 <= e < expired@.len() && expired@[e] == k;
                    assert(exists|e: int| 0 <= e < expired@.len() && expired@[e] == k);
                }
                if exists|e: int| 0 <= e < expired@.len() && expired@[e] == k {
                    assert(expired@.contains(k));
                }
            }
            assert(self.in_flight@ =~= target);
        }
        expired
    }
}

} // verus!
