use vstd::prelude::*;

verus! {

/// A finite map from `u64` keys to values, stored as two parallel vectors.
///
/// Keys are unique; a new key goes to the end, so walking the table by index
/// visits entries in the order they were first inserted.
pub struct KeyTable<V> {
    keys: Vec<u64>,
    vals: Vec<V>,
    contents: Ghost<Map<u64, V>>,
}

impl<V> View for KeyTable<V> {
    type V = Map<u64, V>;

    closed spec fn view(&self) -> Map<u64, V> {
        self.contents@
    }
}

impl<V> KeyTable<V> {
    /// The keys, in table order.
    pub closed spec fn key_seq(&self) -> Seq<u64> {
        self.keys@
    }

    pub closed spec fn wf(&self) -> bool {
        &&& self.keys@.len() == self.vals@.len()
        &&& self.keys@.no_duplicates()
        &&& forall|k: u64| #[trigger] self.contents@.contains_key(k) <==> self.keys@.contains(k)
        &&& forall|i: int|
            0 <= i < self.keys@.len() ==> self.contents@[#[trigger] self.keys@[i]] == self.vals@[i]
    }

    /// What well-formedness tells a user of the table.
    pub proof fn lemma_keys(&self)
        requires
            self.wf(),
        ensures
            self.key_seq().no_duplicates(),
            forall|k: u64| #[trigger] self@.contains_key(k) <==> self.key_seq().contains(k),
            self@.dom().finite(),
    {
        assert(self@.dom() =~= self.key_seq().to_set());
    }

    pub fn new() -> (t: Self)
        ensures
            t.wf(),
            t@ == Map::<u64, V>::empty(),
            t.key_seq() == Seq::<u64>::empty(),
    {
        KeyTable { keys: Vec::new(), vals: Vec::new(), contents: Ghost(Map::empty()) }
    }

    pub fn len(&self) -> (n: usize)
        requires
            self.wf(),
        ensures
            n == self.key_seq().len(),
    {
        self.keys.len()
    }

    pub fn key_at(&self, i: usize) -> (k: u64)
        requires
            self.wf(),
            i < self.key_seq().len(),
        ensures
            k == self.key_seq()[i as int],
            self@.contains_key(k),
    {
        self.keys[i]
    }

    pub fn value_at(&self, i: usize) -> (v: &V)
        requires
            self.wf(),
            i < self.key_seq().len(),
        ensures
            self@.contains_key(self.key_seq()[i as int]),
            *v == self@[self.key_seq()[i as int]],
    {
        &self.vals[i]
    }

    /// The position of `k` in the table, if it is there.
    pub fn find(&self, k: u64) -> (r: Option<usize>)
        requires
            self.wf(),
        ensures
            r is None <==> !self@.contains_key(k),
            r matches Some(i) ==> i < self.key_seq().len() && self.key_seq()[i as int] == k,
    {
        let mut i: usize = 0;
        while i < self.keys.len()
            invariant
                self.wf(),
                0 <= i <= self.keys@.len(),
                forall|j: int| 0 <= j < i ==> self.keys@[j] != k,
            decreases self.keys@.len() - i,
        {
            if self.keys[i] == k {
                return Some(i);
            }
            i = i + 1;
        }
        None
    }

    pub fn contains_key(&self, k: u64) -> (r: bool)
        requires
            self.wf(),
        ensures
            r == self@.contains_key(k),
    {
        self.find(k).is_some()
    }

    pub fn get(&self, k: u64) -> (r: Option<&V>)
        requires
            self.wf(),
        ensures
            r is None <==> !self@.contains_key(k),
            r matches Some(v) ==> *v == self@[k],
    {
        match self.find(k) {
            Some(i) => Some(&self.vals[i]),
            None => None,
        }
    }

    /// Sets the value of `k`, adding the key at the end if it is new.
    pub fn insert(&mut self, k: u64, v: V)
        requires
            old(self).wf(),
        ensures
            final(self).wf(),
            final(self)@ == old(self)@.insert(k, v),
            old(self)@.contains_key(k) ==> final(self).key_seq() == old(self).key_seq(),
            !old(self)@.contains_key(k) ==> final(self).key_seq() == old(self).key_seq().push(k),
    {
        match self.find(k) {
            Some(i) => {
                self.vals.set(i, v);
                self.contents = Ghost(self.contents@.insert(k, v));
                assert forall|j: int| 0 <= j < self.keys@.len() implies self.contents@[
                    #[trigger] self.keys@[j]] == self.vals@[j] by {
                    if j != i {
                        assert(self.keys@[j] != k);
                    }
                }
            },
            None => {
                proof {
                    assert(!self.keys@.contains(k));
                }
                self.keys.push(k);
                self.vals.push(v);
                self.contents = Ghost(self.contents@.insert(k, v));
                assert forall|j: int| 0 <= j < self.keys@.len() implies self.contents@[
                    #[trigger] self.keys@[j]] == self.vals@[j] by {
                    if j < self.keys@.len() - 1 {
                        assert(self.keys@[j] != k);
                    }
                }
                assert forall|kk: u64| #[trigger] self.contents@.contains_key(kk) <==> self.keys@.contains(kk) by {
                    if self.keys@.contains(kk) && kk != k {
                        let j = choose|j: int| 0 <= j < self.keys@.len() && self.keys@[j] == kk;
                        assert(j < self.keys@.len() - 1);
                        assert(old(self).keys@[j] == kk);
                    }
                    if old(self).keys@.contains(kk) {
                        let j = choose|j: int| 0 <= j < old(self).keys@.len() && old(self).keys@[j] == kk;
                        assert(self.keys@[j] == kk);
                    }
                    if kk == k {
                        assert(self.keys@[self.keys@.len() - 1] == k);
                    }
                }
            },
        }
    }

    /// Takes `k` out of the table and returns its value; the other entries
    /// keep their order.
    pub fn remove(&mut self, k: u64) -> (r: Option<V>)
        requires
            old(self).wf(),
        ensures
            final(self).wf(),
            final(self)@ == old(self)@.remove(k),
            !old(self)@.contains_key(k) ==> final(self).key_seq() == old(self).key_seq(),
            old(self)@.contains_key(k) ==> exists|i: int|
                0 <= i < old(self).key_seq().len() && old(self).key_seq()[i] == k && final(self).key_seq()
                    == old(self).key_seq().remove(i),
            r == (if old(self)@.contains_key(k) {
                Some(old(self)@[k])
            } else {
                None::<V>
            }),
    {
        match self.find(k) {
            Some(i) => {
                let ghost old_keys = self.keys@;
                self.keys.remove(i);
                let v = self.vals.remove(i);
                self.contents = Ghost(self.contents@.remove(k));
                assert forall|a: int, b: int|
                    0 <= a < self.keys@.len() && 0 <= b < self.keys@.len() && a != b implies
                    self.keys@[a] != self.keys@[b] by {
                    let oa = if a < i { a } else { a + 1 };
                    let ob = if b < i { b } else { b + 1 };
                    assert(self.keys@[a] == old_keys[oa]);
                    assert(self.keys@[b] == old_keys[ob]);
                }
                assert forall|j: int| 0 <= j < self.keys@.len() implies self.contents@[
                    #[trigger] self.keys@[j]] == self.vals@[j] by {
                    let oj = if j < i { j } else { j + 1 };
                    assert(self.keys@[j] == old_keys[oj]);
                    assert(old_keys[oj] != k);
                }
                assert forall|kk: u64| #[trigger] self.contents@.contains_key(kk) <==> self.keys@.contains(kk) by {
                    if self.keys@.contains(kk) {
                        let j = choose|j: int| 0 <= j < self.keys@.len() && self.keys@[j] == kk;
                        let oj = if j < i { j } else { j + 1 };
                        assert(old_keys[oj] == kk);
                        assert(old_keys.contains(kk));
                        assert(oj != i);
                    }
                    if self.contents@.contains_key(kk) {
                        assert(old_keys.contains(kk));
                        let oj = choose|j: int| 0 <= j < old_keys.len() && old_keys[j] == kk;
                        assert(oj != i);
                        let j = if oj < i { oj } else { oj - 1 };
                        assert(self.keys@[j] == kk);
                    }
                }
                assert(self.keys@ == old_keys.remove(i as int));
                Some(v)
            },
            None => {
                assert(self.contents@.remove(k) =~= self.contents@);
                None
            },
        }
    }

    /// Takes every key of `ks` out of the table.
    pub fn remove_keys(&mut self, ks: &Vec<u64>)
        requires
            old(self).wf(),
        ensures
            final(self).wf(),
            final(self)@ == old(self)@.remove_keys(ks@.to_set()),
    {
        let ghost start = self@;
        let mut r: usize = 0;
        while r < ks.len()
            invariant
                self.wf(),
                0 <= r <= ks@.len(),
                self@ == start.remove_keys(ks@.subrange(0, r as int).to_set()),
            decreases ks@.len() - r,
        {
            let k = ks[r];
            self.remove(k);
            proof {
                let pre = ks@.subrange(0, r as int);
                let post = ks@.subrange(0, r + 1);
                assert(post =~= pre.push(k));
                assert(post.to_set() =~= pre.to_set().insert(k)) by {
                    pre.lemma_push_to_set_commute(k);
                }
                assert(self@ =~= start.remove_keys(post.to_set()));
            }
            r = r + 1;
        }
        assert(ks@.subrange(0, ks@.len() as int) =~= ks@);
    }
}

} // verus!
