//! The in-memory index: for each key, the log offset of its latest record.
use vstd::prelude::*;

verus! {

/// Whether two byte strings are equal.
pub fn bytes_eq(a: &[u8], b: &[u8]) -> (r: bool)
    ensures
        r == (a@ == b@),
{
    if a.len() != b.len() {
        return false;
    }
    let mut i: usize = 0;
    while i < a.len()
        invariant
            a@.len() == b@.len(),
            i <= a@.len(),
            a@.subrange(0, i as int) == b@.subrange(0, i as int),
        decreases a@.len() - i,
    {
        if a[i] != b[i] {
            assert(a@.subrange(0, i as int + 1)[i as int] != b@.subrange(0, i as int + 1)[i as int]);
            assert(a@ != b@ ==> true);
            assert(a@[i as int] != b@[i as int]);
            return false;
        }
        assert(a@.subrange(0, i as int + 1) =~= a@.subrange(0, i as int).push(a@[i as int]));
        assert(b@.subrange(0, i as int + 1) =~= b@.subrange(0, i as int).push(b@[i as int]));
        i = i + 1;
    }
    assert(a@ =~= a@.subrange(0, i as int));
    assert(b@ =~= b@.subrange(0, i as int));
    true
}

/// A map from keys (byte strings) to log offsets. Each key appears once.
pub struct Index {
    keys: Vec<Vec<u8>>,
    offsets: Vec<u64>,
}

impl Index {
    /// The slot of `k`, if it has one.
    closed spec fn slot_of(&self, k: Seq<u8>) -> int {
        choose|i: int| 0 <= i < self.keys@.len() && #[trigger] self.keys@[i]@ == k
    }

    closed spec fn holds(&self, k: Seq<u8>) -> bool {
        exists|i: int| 0 <= i < self.keys@.len() && #[trigger] self.keys@[i]@ == k
    }

    /// The index as a map from key to offset.
    pub closed spec fn view(&self) -> Map<Seq<u8>, u64> {
        Map::new(|k: Seq<u8>| self.holds(k), |k: Seq<u8>| self.offsets@[self.slot_of(k)])
    }

    /// Internal consistency: one offset per key, each key in one slot.
    pub closed spec fn wf(&self) -> bool {
        &&& self.keys@.len() == self.offsets@.len()
        &&& forall|i: int, j: int|
            0 <= i < j < self.keys@.len() ==> #[trigger] self.keys@[i]@ != #[trigger] self.keys@[j]@
    }

    proof fn lemma_slot(&self, i: int)
        requires
            self.wf(),
            0 <= i < self.keys@.len(),
        ensures
            self.holds(self.keys@[i]@),
            self.slot_of(self.keys@[i]@) == i,
            self@.contains_key(self.keys@[i]@),
            self@[self.keys@[i]@] == self.offsets@[i],
    {
        let k = self.keys@[i]@;
        assert(self.holds(k));
        let j = self.slot_of(k);
        assert(0 <= j < self.keys@.len() && self.keys@[j]@ == k);
        if j < i {
            assert(self.keys@[j]@ != self.keys@[i]@);
        } else if i < j {
            assert(self.keys@[i]@ != self.keys@[j]@);
        }
    }

    /// An empty index.
    pub fn new() -> (r: Index)
        ensures
            r.wf(),
            r@ == Map::<Seq<u8>, u64>::empty(),
    {
        let r = Index { keys: Vec::new(), offsets: Vec::new() };
        assert(r@ =~= Map::<Seq<u8>, u64>::empty());
        r
    }

    /// The slot holding `key`, if any.
    fn find(&self, key: &[u8]) -> (r: Option<usize>)
        requires
            self.wf(),
        ensures
            match r {
                Some(i) => i < self.keys@.len() && self.keys@[i as int]@ == key@,
                None => !self@.contains_key(key@),
            },
    {
        let mut i: usize = 0;
        while i < self.keys.len()
            invariant
                self.wf(),
                i <= self.keys@.len(),
                forall|j: int| 0 <= j < i ==> #[trigger] self.keys@[j]@ != key@,
            decreases self.keys@.len() - i,
        {
            if bytes_eq(self.keys[i].as_slice(), key) {
                return Some(i);
            }
            i = i + 1;
        }
        None
    }

    /// The offset recorded for `key`; `None` for a key never set.
    pub fn get(&self, key: &[u8]) -> (r: Option<u64>)
        requires
            self.wf(),
        ensures
            r == self@.get(key@),
    {
        match self.find(key) {
            Some(i) => {
                proof { self.lemma_slot(i as int); }
                Some(self.offsets[i])
            },
            None => None,
        }
    }

    /// Records `offset` for `key`, replacing any earlier offset.
    pub fn set(&mut self, key: &[u8], offset: u64)
        requires
            old(self).wf(),
        ensures
            final(self).wf(),
            final(self)@ == old(self)@.insert(key@, offset),
    {
        match self.find(key) {
            Some(i) => {
                self.offsets.set(i, offset);
                proof {
                    assert(self.keys@ == old(self).keys@);
                    assert forall|k: Seq<u8>| #[trigger] self@.contains_key(k) == old(self)@.insert(key@, offset).contains_key(k)
                        by {
                        if old(self)@.contains_key(k) {
                            let j = old(self).slot_of(k);
                            assert(self.keys@[j]@ == k);
                        }
                        if self.holds(k) {
                            let j = self.slot_of(k);
                            assert(old(self).keys@[j]@ == k);
                        }
                    }
                    assert forall|k: Seq<u8>| #[trigger] self@.contains_key(k) implies self@[k] == old(self)@.insert(key@, offset)[k]
                        by {
                        let j = self.slot_of(k);
                        self.lemma_slot(j);
                        old(self).lemma_slot(j);
                        if k == key@ {
                            self.lemma_slot(i as int);
                        }
                    }
                    assert(self@ =~= old(self)@.insert(key@, offset));
                }
            },
            None => {
                let k = copy_bytes(key);
                self.keys.push(k);
                self.offsets.push(offset);
                proof {
                    let n = old(self).keys@.len() as int;
                    assert forall|a: int, b: int| 0 <= a < b < self.keys@.len() implies #[trigger] self.keys@[a]@
                        != #[trigger] self.keys@[b]@ by {
                        if b == n {
                            assert(old(self).keys@[a] == self.keys@[a]);
                            old(self).lemma_slot(a);
                        } else {
                            assert(old(self).keys@[a] == self.keys@[a]);
                            assert(old(self).keys@[b] == self.keys@[b]);
                        }
                    }
                    assert forall|kk: Seq<u8>| #[trigger] self@.contains_key(kk) == old(self)@.insert(key@, offset).contains_key(kk)
                        by {
                        if old(self)@.contains_key(kk) {
                            let s = old(self).slot_of(kk);
                            assert(self.keys@[s]@ == kk);
                        }
                        if kk == key@ {
                            assert(self.keys@[n]@ == kk);
                        }
                        if self.holds(kk) {
                            let s = self.slot_of(kk);
                            if s < n {
                                assert(old(self).keys@[s]@ == kk);
                            }
                        }
                    }
                    assert forall|kk: Seq<u8>| #[trigger] self@.contains_key(kk) implies self@[kk] == old(self)@.insert(key@, offset)[kk]
                        by {
                        let s = self.slot_of(kk);
                        self.lemma_slot(s);
                        if s < n {
                            old(self).lemma_slot(s);
                            assert(old(self).keys@[s] == self.keys@[s]);
                        }
                    }
                    assert(self@ =~= old(self)@.insert(key@, offset));
                }
            },
        }
    }

    /// The number of keys.
    pub fn len(&self) -> (r: usize)
        requires
            self.wf(),
        ensures
            r == self@.dom().len(),
    {
        proof { self.lemma_dom_len(); }
        self.keys.len()
    }

    proof fn lemma_dom_len(&self)
        requires
            self.wf(),
        ensures
            self@.dom().len() == self.keys@.len(),
            self@.dom() == Set::new(|i: int| 0 <= i < self.keys@.len()).map(|i: int| self.keys@[i]@),
    {
        let idx = Set::new(|i: int| 0 <= i < self.keys@.len());
        let f = |i: int| self.keys@[i]@;
        assert forall|k: Seq<u8>| #[trigger] self@.dom().contains(k) == idx.map(f).contains(k) by {
            if self@.dom().contains(k) {
                let j = self.slot_of(k);
                assert(idx.contains(j) && f(j) == k);
            }
            if idx.map(f).contains(k) {
                let j = choose|j: int| idx.contains(j) && f(j) == k;
                assert(self.keys@[j]@ == k);
            }
        }
        assert(self@.dom() =~= idx.map(f));
        assert forall|a: int, b: int| idx.contains(a) && idx.contains(b) && #[trigger] f(a) == #[trigger] f(b) implies a == b by {
            if a < b {
                assert(self.keys@[a]@ != self.keys@[b]@);
            } else if b < a {
                assert(self.keys@[b]@ != self.keys@[a]@);
            }
        }
        vstd::set_lib::lemma_int_range(0, self.keys@.len() as int);
        assert(idx =~= vstd::set_lib::set_int_range(0, self.keys@.len() as int));
        assert(vstd::relations::injective_on(f, idx));
        vstd::set_lib::lemma_map_size(idx, idx.map(f), f);
    }

    /// The entries of the index, each key once with its offset.
    pub fn iterate(&self) -> (r: Vec<(Vec<u8>, u64)>)
        requires
            self.wf(),
        ensures
            r@.len() == self@.dom().len(),
            forall|i: int| 0 <= i < r@.len() ==> #[trigger] self@.contains_key(r@[i].0@) && self@[r@[i].0@] == r@[i].1,
            forall|k: Seq<u8>| #[trigger] self@.contains_key(k) ==> exists|i: int| 0 <= i < r@.len() && r@[i].0@ == k,
    {
        proof { self.lemma_dom_len(); }
        let mut out: Vec<(Vec<u8>, u64)> = Vec::new();
        let mut i: usize = 0;
        while i < self.keys.len()
            invariant
                self.wf(),
                i <= self.keys@.len(),
                out@.len() == i,
                forall|j: int| 0 <= j < i ==> (#[trigger] out@[j]).0@ == self.keys@[j]@ && out@[j].1 == self.offsets@[j],
            decreases self.keys@.len() - i,
        {
            let k = copy_bytes(self.keys[i].as_slice());
            let ghost prev = out@;
            out.push((k, self.offsets[i]));
            assert(forall|j: int| 0 <= j < i ==> out@[j] == prev[j]);
            i = i + 1;
        }
        proof {
            assert forall|j: int| 0 <= j < out@.len() implies #[trigger] self@.contains_key(out@[j].0@) && self@[out@[j].0@] == out@[j].1 by {
                self.lemma_slot(j);
            }
            assert forall|k: Seq<u8>| #[trigger] self@.contains_key(k) implies exists|j: int| 0 <= j < out@.len() && out@[j].0@ == k by {
                let j = self.slot_of(k);
                assert(out@[j].0@ == k);
            }
        }
        out
    }
}

/// A copy of `b`.
fn copy_bytes(b: &[u8]) -> (r: Vec<u8>)
    ensures
        r@ == b@,
{
    let mut k: Vec<u8> = Vec::new();
    let mut j: usize = 0;
    while j < b.len()
        invariant
            j <= b@.len(),
            k@ == b@.subrange(0, j as int),
        decreases b@.len() - j,
    {
        k.push(b[j]);
        j = j + 1;
        assert(k@ =~= b@.subrange(0, j as int));
    }
    assert(k@ =~= b@);
    k
}

} // verus!
