//! A table keyed by content hash, with at most one entry per key.
use crate::hash::CryptoHash;
use vstd::prelude::*;

verus! {

pub open spec fn keys_unique(keys: Seq<CryptoHash>) -> bool {
    forall|i: int, j: int| 0 <= i < j < keys.len() ==> (#[trigger] keys[i])@ != (#[trigger] keys[j])@
}

pub struct Table<V> {
    keys: Vec<CryptoHash>,
    vals: Vec<V>,
}

impl<V> Table<V> {
    pub closed spec fn wf(&self) -> bool {
        &&& self.keys@.len() == self.vals@.len()
        &&& keys_unique(self.keys@)
    }

    pub closed spec fn view(&self) -> Map<Seq<u8>, V> {
        Map::new(
            |k: Seq<u8>| exists|i: int| 0 <= i < self.keys@.len() && self.keys@[i]@ == k,
            |k: Seq<u8>| self.vals@[choose|i: int| 0 <= i < self.keys@.len() && self.keys@[i]@ == k],
        )
    }

    proof fn lemma_at(&self, i: int)
        requires
            self.wf(),
            0 <= i < self.keys@.len(),
        ensures
            self.view().contains_key(self.keys@[i]@),
            self.view()[self.keys@[i]@] == self.vals@[i],
    {
        let k = self.keys@[i]@;
        assert(exists|j: int| 0 <= j < self.keys@.len() && self.keys@[j]@ == k);
        let j = choose|j: int| 0 <= j < self.keys@.len() && self.keys@[j]@ == k;
        if j != i {
            if j < i {
                assert(self.keys@[j]@ != self.keys@[i]@);
            } else {
                assert(self.keys@[i]@ != self.keys@[j]@);
            }
        }
    }

    pub fn new() -> (r: Table<V>)
        ensures
            r.wf(),
            r.view() == Map::<Seq<u8>, V>::empty(),
    {
        let r = Table { keys: Vec::new(), vals: Vec::new() };
        assert(r.view() =~= Map::<Seq<u8>, V>::empty());
        r
    }

    fn position(&self, k: &CryptoHash) -> (r: Option<usize>)
        requires
            self.wf(),
        ensures
            r.is_none() ==> !self.view().contains_key(k@),
            r.is_some() ==> r.unwrap() < self.keys@.len() && self.keys@[r.unwrap() as int]@ == k@,
    {
        let mut i: usize = 0;
        while i < self.keys.len()
            invariant
                self.wf(),
                0 <= i <= self.keys@.len(),
                forall|j: int| 0 <= j < i ==> (#[trigger] self.keys@[j])@ != k@,
            decreases self.keys@.len() - i,
        {
            if self.keys[i] == *k {
                return Some(i);
            }
            i = i + 1;
        }
        None
    }

    pub fn contains(&self, k: &CryptoHash) -> (r: bool)
        requires
            self.wf(),
        ensures
            r == self.view().contains_key(k@),
    {
        match self.position(k) {
            Some(i) => {
                proof {
                    self.lemma_at(i as int);
                }
                true
            },
            None => false,
        }
    }

    pub fn get(&self, k: &CryptoHash) -> (r: Option<&V>)
        requires
            self.wf(),
        ensures
            r.is_some() == self.view().contains_key(k@),
            r.is_some() ==> *r.unwrap() == self.view()[k@],
    {
        match self.position(k) {
            Some(i) => {
                proof {
                    self.lemma_at(i as int);
                }
                Some(&self.vals[i])
            },
            None => None,
        }
    }

    /// Sets the entry of `k` to `v`, replacing any earlier one.
    pub fn insert(&mut self, k: CryptoHash, v: V)
        requires
            old(self).wf(),
        ensures
            final(self).wf(),
            final(self).view() == old(self).view().insert(k@, v),
    {
        let ghost m = self.view().insert(k@, v);
        let ghost t0: Table<V> = *self;
        let ghost ks = self.keys@;
        match self.position(&k) {
            Some(i) => {
                self.vals.set(i, v);
                proof {
                    assert(self.keys@ == ks);
                    assert forall|x: Seq<u8>| #[trigger] self.view().contains_key(x) == m.contains_key(x) by {
                        if m.contains_key(x) && x != k@ {
                            let j = choose|j: int| 0 <= j < ks.len() && ks[j]@ == x;
                            assert(self.keys@[j]@ == x);
                        }
                    }
                    assert forall|x: Seq<u8>| #[trigger] self.view().contains_key(x) implies self.view()[x] == m[x] by {
                        let j = choose|j: int| 0 <= j < ks.len() && ks[j]@ == x;
                        self.lemma_at(j);
                        self.lemma_at(i as int);
                        if x != k@ {
                            t0.lemma_at(j);
                        }
                    }
                    assert(self.view() =~= m);
                }
            },
            None => {
                self.keys.push(k);
                self.vals.push(v);
                proof {
                    let n = ks.len() as int;
                    assert forall|i: int, j: int| 0 <= i < j < self.keys@.len() implies (
                    #[trigger] self.keys@[i])@ != (#[trigger] self.keys@[j])@ by {
                        if j == n {
                            assert(t0.view().contains_key(ks[i]@)) by {
                                assert(0 <= i < ks.len() && ks[i]@ == ks[i]@);
                            }
                        }
                    }
                    assert forall|x: Seq<u8>| #[trigger] self.view().contains_key(x) == m.contains_key(x) by {
                        if self.view().contains_key(x) && x != k@ {
                            let j = choose|j: int| 0 <= j < self.keys@.len() && self.keys@[j]@ == x;
                            assert(ks[j]@ == x);
                        }
                        if m.contains_key(x) && x != k@ {
                            let j = choose|j: int| 0 <= j < ks.len() && ks[j]@ == x;
                            assert(self.keys@[j]@ == x);
                        }
                        if x == k@ {
                            assert(self.keys@[n]@ == x);
                        }
                    }
                    assert forall|x: Seq<u8>| #[trigger] self.view().contains_key(x) implies self.view()[x] == m[x] by {
                        let j = choose|j: int| 0 <= j < self.keys@.len() && self.keys@[j]@ == x;
                        self.lemma_at(j);
                        self.lemma_at(n);
                        if x != k@ {
                            t0.lemma_at(j);
                        }
                    }
                    assert(self.view() =~= m);
                }
            },
        }
    }
}

impl<V> Table<V> {
    /// The keys, each once.
    pub fn keys(&self) -> (r: Vec<CryptoHash>)
        requires
            self.wf(),
        ensures
            forall|k: Seq<u8>| #[trigger] self.view().contains_key(k) <==> exists|i: int| 0 <= i < r@.len() && (#[trigger] r@[i])@ == k,
            forall|i: int, j: int| 0 <= i < j < r@.len() ==> (#[trigger] r@[i])@ != (#[trigger] r@[j])@,
    {
        let mut out: Vec<CryptoHash> = Vec::new();
        let mut i: usize = 0;
        while i < self.keys.len()
            invariant
                self.wf(),
                0 <= i <= self.keys@.len(),
                out@ == self.keys@.take(i as int),
            decreases self.keys@.len() - i,
        {
            out.push(self.keys[i]);
            proof {
                assert(self.keys@.take(i + 1) =~= self.keys@.take(i as int).push(self.keys@[i as int]));
            }
            i = i + 1;
        }
        assert(self.keys@.take(i as int) =~= self.keys@);
        assert forall|k: Seq<u8>| self.view().contains_key(k) implies exists|i: int| 0 <= i < out@.len() && (#[trigger] out@[i])@ == k by {
            let j = choose|j: int| 0 <= j < self.keys@.len() && self.keys@[j]@ == k;
            assert(out@[j]@ == k);
        }
        out
    }
}

} // verus!
