//! A shard's ledger snapshot: balances and the two replay-protection sets, each
//! kept in strictly increasing key order so that equal contents have one form.
use crate::account::{
    bytes_lt, lemma_bytes_lt_irreflexive, lemma_bytes_lt_total, lemma_bytes_lt_transitive,
    AccountId,
};
use crate::hash::CryptoHash;
use vstd::prelude::*;

verus! {

/// Order of (account, nonce) pairs: by account, then by nonce.
pub open spec fn pair_lt(a: (Seq<u8>, u64), b: (Seq<u8>, u64)) -> bool {
    bytes_lt(a.0, b.0) || (a.0 == b.0 && a.1 < b.1)
}

pub open spec fn balances_sorted(s: Seq<(AccountId, u128)>) -> bool {
    forall|i: int, j: int| 0 <= i < j < s.len() ==> bytes_lt(#[trigger] s[i].0@, #[trigger] s[j].0@)
}

pub open spec fn hashes_sorted(s: Seq<CryptoHash>) -> bool {
    forall|i: int, j: int| 0 <= i < j < s.len() ==> bytes_lt(#[trigger] s[i]@, #[trigger] s[j]@)
}

pub open spec fn nonces_sorted(s: Seq<(AccountId, u64)>) -> bool {
    forall|i: int, j: int|
        0 <= i < j < s.len() ==> pair_lt(
            (#[trigger] s[i].0@, s[i].1),
            (#[trigger] s[j].0@, s[j].1),
        )
}

/// The balance table as a map from account bytes to balance.
pub open spec fn balance_map(s: Seq<(AccountId, u128)>) -> Map<Seq<u8>, u128> {
    Map::new(
        |k: Seq<u8>| exists|i: int| 0 <= i < s.len() && s[i].0@ == k,
        |k: Seq<u8>| s[choose|i: int| 0 <= i < s.len() && s[i].0@ == k].1,
    )
}

pub open spec fn hash_set(s: Seq<CryptoHash>) -> Set<Seq<u8>> {
    Set::new(|k: Seq<u8>| exists|i: int| 0 <= i < s.len() && s[i]@ == k)
}

pub open spec fn nonce_set(s: Seq<(AccountId, u64)>) -> Set<(Seq<u8>, u64)> {
    Set::new(|k: (Seq<u8>, u64)| exists|i: int| 0 <= i < s.len() && s[i].0@ == k.0 && s[i].1 == k.1)
}

/// The abstract contents of a snapshot.
pub struct LedgerView {
    pub balances: Map<Seq<u8>, u128>,
    pub receipts: Set<Seq<u8>>,
    pub nonces: Set<(Seq<u8>, u64)>,
}

/// A ledger snapshot of one shard.
pub struct Snapshot {
    /// Balances, strictly increasing by account.
    pub amounts: Vec<(AccountId, u128)>,
    /// Ids of receipts already applied, strictly increasing.
    pub receipt_ids: Vec<CryptoHash>,
    /// (receiver, nonce) pairs of transactions already applied, strictly increasing.
    pub tx_nonces: Vec<(AccountId, u64)>,
}

/// The balance of `k` in `m`, zero where absent.
pub open spec fn balance_in(m: Map<Seq<u8>, u128>, k: Seq<u8>) -> u128 {
    if m.contains_key(k) {
        m[k]
    } else {
        0
    }
}

impl View for Snapshot {
    type V = LedgerView;

    open spec fn view(&self) -> LedgerView {
        LedgerView {
            balances: balance_map(self.amounts@),
            receipts: hash_set(self.receipt_ids@),
            nonces: nonce_set(self.tx_nonces@),
        }
    }
}

pub proof fn lemma_balance_at(s: Seq<(AccountId, u128)>, i: int)
    requires
        balances_sorted(s),
        0 <= i < s.len(),
    ensures
        balance_map(s).contains_key(s[i].0@),
        balance_map(s)[s[i].0@] == s[i].1,
{
    let k = s[i].0@;
    assert(exists|j: int| 0 <= j < s.len() && s[j].0@ == k);
    let j = choose|j: int| 0 <= j < s.len() && s[j].0@ == k;
    lemma_bytes_lt_irreflexive(k);
    if j < i {
        assert(bytes_lt(s[j].0@, s[i].0@));
    } else if i < j {
        assert(bytes_lt(s[i].0@, s[j].0@));
    }
}

impl Snapshot {
    pub open spec fn wf(&self) -> bool {
        &&& balances_sorted(self.amounts@)
        &&& hashes_sorted(self.receipt_ids@)
        &&& nonces_sorted(self.tx_nonces@)
    }

    /// A snapshot with no balances and empty replay-protection sets.
    pub fn empty() -> (r: Snapshot)
        ensures
            r.wf(),
            r@.balances == Map::<Seq<u8>, u128>::empty(),
            r@.receipts == Set::<Seq<u8>>::empty(),
            r@.nonces == Set::<(Seq<u8>, u64)>::empty(),
            r.amounts@.len() == 0,
            r.receipt_ids@.len() == 0,
            r.tx_nonces@.len() == 0,
    {
        let r = Snapshot { amounts: Vec::new(), receipt_ids: Vec::new(), tx_nonces: Vec::new() };
        assert(r@.balances =~= Map::<Seq<u8>, u128>::empty());
        assert(r@.receipts =~= Set::<Seq<u8>>::empty());
        assert(r@.nonces =~= Set::<(Seq<u8>, u64)>::empty());
        r
    }

    /// Where `k` stands or would stand in the balance table.
    fn find_account(&self, k: &AccountId) -> (r: (usize, bool))
        requires
            self.wf(),
        ensures
            r.0 <= self.amounts@.len(),
            forall|i: int| 0 <= i < r.0 ==> bytes_lt(#[trigger] self.amounts@[i].0@, k@),
            r.1 == (r.0 < self.amounts@.len() && self.amounts@[r.0 as int].0@ == k@),
            r.0 < self.amounts@.len() && !r.1 ==> bytes_lt(k@, self.amounts@[r.0 as int].0@),
    {
        let mut i: usize = 0;
        while i < self.amounts.len() && self.amounts[i].0.less_than(k)
            invariant
                self.wf(),
                0 <= i <= self.amounts@.len(),
                forall|j: int| 0 <= j < i ==> bytes_lt(#[trigger] self.amounts@[j].0@, k@),
            decreases self.amounts@.len() - i,
        {
            i = i + 1;
        }
        if i < self.amounts.len() {
            proof {
                lemma_bytes_lt_total(self.amounts@[i as int].0@, k@);
            }
            let eq = self.amounts[i].0.same_as(k);
            (i, eq)
        } else {
            (i, false)
        }
    }

    /// The recorded balance of `k`, if any.
    pub fn get_balance(&self, k: &AccountId) -> (r: Option<u128>)
        requires
            self.wf(),
        ensures
            r == (if self@.balances.contains_key(k@) {
                Some(self@.balances[k@])
            } else {
                None::<u128>
            }),
    {
        let (i, found) = self.find_account(k);
        proof {
            if !found {
                assert(!self@.balances.contains_key(k@)) by {
                    if self@.balances.contains_key(k@) {
                        let j = choose|j: int| 0 <= j < self.amounts@.len() && self.amounts@[j].0@ == k@;
                        lemma_bytes_lt_irreflexive(k@);
                        if j >= i {
                            if j > i {
                                assert(bytes_lt(self.amounts@[i as int].0@, self.amounts@[j].0@));
                                lemma_bytes_lt_transitive(k@, self.amounts@[i as int].0@, k@);
                            }
                        }
                    }
                }
            } else {
                lemma_balance_at(self.amounts@, i as int);
            }
        }
        if found {
            Some(self.amounts[i].1)
        } else {
            None
        }
    }

    /// Sets the balance of `k` to `v`.
    pub fn set_balance(&mut self, k: &AccountId, v: u128)
        requires
            old(self).wf(),
        ensures
            final(self).wf(),
            final(self)@.balances == old(self)@.balances.insert(k@, v),
            final(self)@.receipts == old(self)@.receipts,
            final(self)@.nonces == old(self)@.nonces,
            final(self).receipt_ids@ == old(self).receipt_ids@,
            final(self).tx_nonces@ == old(self).tx_nonces@,
            final(self).amounts@.len() <= old(self).amounts@.len() + 1,
            forall|j: int|
                0 <= j < final(self).amounts@.len() ==> (#[trigger] final(self).amounts@[j]).0@ == k@ || exists|m: int|
                    0 <= m < old(self).amounts@.len() && old(self).amounts@[m].0@ == final(self).amounts@[j].0@,
    {
        let (p, found) = self.find_account(k);
        let ghost s = self.amounts@;
        if found {
            self.amounts.set(p, (k.duplicate(), v));
        } else {
            self.amounts.insert(p, (k.duplicate(), v));
        }
        let ghost t = self.amounts@;
        proof {
            assert(balances_sorted(t)) by {
                assert forall|i: int, j: int| 0 <= i < j < t.len() implies bytes_lt(
                    #[trigger] t[i].0@,
                    #[trigger] t[j].0@,
                ) by {
                    if found {
                        assert(t[i].0@ == s[i].0@ && t[j].0@ == s[j].0@);
                    } else {
                        if j < p {
                            assert(t[i] == s[i] && t[j] == s[j]);
                        } else if i > p {
                            assert(t[i] == s[i - 1] && t[j] == s[j - 1]);
                        } else if i == p {
                            assert(bytes_lt(k@, s[p as int].0@));
                            if j - 1 > p {
                                assert(bytes_lt(s[p as int].0@, s[j - 1].0@));
                                lemma_bytes_lt_transitive(k@, s[p as int].0@, s[j - 1].0@);
                            }
                        } else {
                            assert(bytes_lt(s[i].0@, k@));
                            if j > p {
                                assert(bytes_lt(k@, s[p as int].0@));
                                if j - 1 > p {
                                    assert(bytes_lt(s[p as int].0@, s[j - 1].0@));
                                    lemma_bytes_lt_transitive(k@, s[p as int].0@, s[j - 1].0@);
                                }
                                lemma_bytes_lt_transitive(s[i].0@, k@, s[j - 1].0@);
                            }
                        }
                    }
                }
            }
            let m = balance_map(s).insert(k@, v);
            assert forall|x: Seq<u8>| #[trigger] balance_map(t).contains_key(x) == m.contains_key(x) by {
                if balance_map(t).contains_key(x) {
                    let j = choose|j: int| 0 <= j < t.len() && t[j].0@ == x;
                    if x != k@ {
                        if found || j < p {
                            assert(s[j].0@ == x);
                        } else {
                            assert(s[j - 1].0@ == x);
                        }
                    }
                }
                if m.contains_key(x) {
                    if x == k@ {
                        assert(t[p as int].0@ == x);
                    } else {
                        let j = choose|j: int| 0 <= j < s.len() && s[j].0@ == x;
                        if found || j < p {
                            assert(t[j].0@ == x);
                        } else {
                            assert(t[j + 1].0@ == x);
                        }
                    }
                }
            }
            assert forall|x: Seq<u8>| #[trigger] balance_map(t).contains_key(x) implies balance_map(t)[x] == m[x] by {
                let j = choose|j: int| 0 <= j < t.len() && t[j].0@ == x;
                lemma_balance_at(t, j);
                lemma_balance_at(t, p as int);
                if x != k@ {
                    if found || j < p {
                        lemma_balance_at(s, j);
                    } else {
                        lemma_balance_at(s, j - 1);
                    }
                }
            }
            assert(balance_map(t) =~= m);
            assert forall|j: int| 0 <= j < t.len() implies (#[trigger] t[j]).0@ == k@ || exists|m: int|
                0 <= m < s.len() && s[m].0@ == t[j].0@ by {
                if found {
                    if j != p {
                        assert(s[j].0@ == t[j].0@);
                    }
                } else if j < p {
                    assert(s[j].0@ == t[j].0@);
                } else if j > p {
                    assert(s[j - 1].0@ == t[j].0@);
                }
            }
        }
    }
}


proof fn lemma_pair_lt_facts(a: (Seq<u8>, u64), b: (Seq<u8>, u64), c: (Seq<u8>, u64))
    ensures
        !pair_lt(a, a),
        pair_lt(a, b) && pair_lt(b, c) ==> pair_lt(a, c),
        a == b || pair_lt(a, b) || pair_lt(b, a),
{
    lemma_bytes_lt_irreflexive(a.0);
    lemma_bytes_lt_total(a.0, b.0);
    if bytes_lt(a.0, b.0) && bytes_lt(b.0, c.0) {
        lemma_bytes_lt_transitive(a.0, b.0, c.0);
    }
}

impl Snapshot {
    fn find_receipt(&self, k: &CryptoHash) -> (r: (usize, bool))
        requires
            self.wf(),
        ensures
            r.0 <= self.receipt_ids@.len(),
            forall|i: int| 0 <= i < r.0 ==> bytes_lt(#[trigger] self.receipt_ids@[i]@, k@),
            r.1 == (r.0 < self.receipt_ids@.len() && self.receipt_ids@[r.0 as int]@ == k@),
            r.0 < self.receipt_ids@.len() && !r.1 ==> bytes_lt(k@, self.receipt_ids@[r.0 as int]@),
    {
        let mut i: usize = 0;
        while i < self.receipt_ids.len()
            && crate::account::bytes_less(&self.receipt_ids[i].bytes, &k.bytes)
            invariant
                self.wf(),
                0 <= i <= self.receipt_ids@.len(),
                forall|j: int| 0 <= j < i ==> bytes_lt(#[trigger] self.receipt_ids@[j]@, k@),
            decreases self.receipt_ids@.len() - i,
        {
            i = i + 1;
        }
        if i < self.receipt_ids.len() {
            proof {
                lemma_bytes_lt_total(self.receipt_ids@[i as int]@, k@);
            }
            let eq = self.receipt_ids[i] == *k;
            (i, eq)
        } else {
            (i, false)
        }
    }

    /// Whether the receipt id `k` was already applied.
    pub fn has_receipt(&self, k: &CryptoHash) -> (r: bool)
        requires
            self.wf(),
        ensures
            r == self@.receipts.contains(k@),
    {
        let (i, found) = self.find_receipt(k);
        proof {
            if !found && self@.receipts.contains(k@) {
                let j = choose|j: int| 0 <= j < self.receipt_ids@.len() && self.receipt_ids@[j]@ == k@;
                lemma_bytes_lt_irreflexive(k@);
                if j > i {
                    assert(bytes_lt(self.receipt_ids@[i as int]@, self.receipt_ids@[j]@));
                    lemma_bytes_lt_transitive(k@, self.receipt_ids@[i as int]@, k@);
                }
            }
        }
        found
    }

    /// Records the receipt id `k` as applied.
    pub fn add_receipt(&mut self, k: &CryptoHash)
        requires
            old(self).wf(),
        ensures
            final(self).wf(),
            final(self)@.receipts == old(self)@.receipts.insert(k@),
            final(self)@.balances == old(self)@.balances,
            final(self)@.nonces == old(self)@.nonces,
    {
        let (p, found) = self.find_receipt(k);
        if found {
            assert(self@.receipts.insert(k@) =~= self@.receipts);
            return;
        }
        let ghost s = self.receipt_ids@;
        self.receipt_ids.insert(p, *k);
        let ghost t = self.receipt_ids@;
        proof {
            assert forall|i: int, j: int| 0 <= i < j < t.len() implies bytes_lt(
                #[trigger] t[i]@,
                #[trigger] t[j]@,
            ) by {
                if j < p {
                    assert(t[i] == s[i] && t[j] == s[j]);
                } else if i > p {
                    assert(t[i] == s[i - 1] && t[j] == s[j - 1]);
                } else if i == p {
                    if j - 1 > p {
                        assert(bytes_lt(s[p as int]@, s[j - 1]@));
                        lemma_bytes_lt_transitive(k@, s[p as int]@, s[j - 1]@);
                    }
                } else {
                    assert(bytes_lt(s[i]@, k@));
                    if j > p {
                        if j - 1 > p {
                            assert(bytes_lt(s[p as int]@, s[j - 1]@));
                            lemma_bytes_lt_transitive(k@, s[p as int]@, s[j - 1]@);
                        }
                        lemma_bytes_lt_transitive(s[i]@, k@, s[j - 1]@);
                    }
                }
            }
            let m = hash_set(s).insert(k@);
            assert forall|x: Seq<u8>| #[trigger] hash_set(t).contains(x) == m.contains(x) by {
                if hash_set(t).contains(x) {
                    let j = choose|j: int| 0 <= j < t.len() && t[j]@ == x;
                    if x != k@ {
                        if j < p {
                            assert(s[j]@ == x);
                        } else {
                            assert(s[j - 1]@ == x);
                        }
                    }
                }
                if m.contains(x) {
                    if x == k@ {
                        assert(t[p as int]@ == x);
                    } else {
                        let j = choose|j: int| 0 <= j < s.len() && s[j]@ == x;
                        if j < p {
                            assert(t[j]@ == x);
                        } else {
                            assert(t[j + 1]@ == x);
                        }
                    }
                }
            }
            assert(hash_set(t) =~= m);
        }
    }

    fn find_nonce(&self, k: &AccountId, n: u64) -> (r: (usize, bool))
        requires
            self.wf(),
        ensures
            r.0 <= self.tx_nonces@.len(),
            forall|i: int|
                0 <= i < r.0 ==> pair_lt((#[trigger] self.tx_nonces@[i].0@, self.tx_nonces@[i].1), (k@, n)),
            r.1 == (r.0 < self.tx_nonces@.len() && self.tx_nonces@[r.0 as int].0@ == k@
                && self.tx_nonces@[r.0 as int].1 == n),
            r.0 < self.tx_nonces@.len() && !r.1 ==> pair_lt(
                (k@, n),
                (self.tx_nonces@[r.0 as int].0@, self.tx_nonces@[r.0 as int].1),
            ),
    {
        let mut i: usize = 0;
        while i < self.tx_nonces.len() && (self.tx_nonces[i].0.less_than(k) || (
        self.tx_nonces[i].0.same_as(k) && self.tx_nonces[i].1 < n))
            invariant
                self.wf(),
                0 <= i <= self.tx_nonces@.len(),
                forall|j: int|
                    0 <= j < i ==> pair_lt((#[trigger] self.tx_nonces@[j].0@, self.tx_nonces@[j].1), (k@, n)),
            decreases self.tx_nonces@.len() - i,
        {
            i = i + 1;
        }
        if i < self.tx_nonces.len() {
            proof {
                let e = (self.tx_nonces@[i as int].0@, self.tx_nonces@[i as int].1);
                lemma_pair_lt_facts(e, (k@, n), e);
            }
            let eq = self.tx_nonces[i].0.same_as(k) && self.tx_nonces[i].1 == n;
            (i, eq)
        } else {
            (i, false)
        }
    }

    /// Whether a transaction to `k` with nonce `n` was already applied.
    pub fn has_nonce(&self, k: &AccountId, n: u64) -> (r: bool)
        requires
            self.wf(),
        ensures
            r == self@.nonces.contains((k@, n)),
    {
        let (i, found) = self.find_nonce(k, n);
        proof {
            if !found && self@.nonces.contains((k@, n)) {
                let s = self.tx_nonces@;
                let j = choose|j: int| 0 <= j < s.len() && s[j].0@ == k@ && s[j].1 == n;
                let e = (s[i as int].0@, s[i as int].1);
                lemma_pair_lt_facts((k@, n), e, (k@, n));
                if j > i {
                    assert(pair_lt((s[i as int].0@, s[i as int].1), (s[j].0@, s[j].1)));
                }
            }
        }
        found
    }

    /// Records a transaction to `k` with nonce `n` as applied.
    pub fn add_nonce(&mut self, k: &AccountId, n: u64)
        requires
            old(self).wf(),
        ensures
            final(self).wf(),
            final(self)@.nonces == old(self)@.nonces.insert((k@, n)),
            final(self)@.balances == old(self)@.balances,
            final(self)@.receipts == old(self)@.receipts,
    {
        let (p, found) = self.find_nonce(k, n);
        if found {
            assert(self@.nonces.insert((k@, n)) =~= self@.nonces);
            return;
        }
        let ghost s = self.tx_nonces@;
        self.tx_nonces.insert(p, (k.duplicate(), n));
        let ghost t = self.tx_nonces@;
        proof {
            let kn = (k@, n);
            assert forall|i: int, j: int| 0 <= i < j < t.len() implies pair_lt(
                (#[trigger] t[i].0@, t[i].1),
                (#[trigger] t[j].0@, t[j].1),
            ) by {
                if j < p {
                    assert(t[i] == s[i] && t[j] == s[j]);
                } else if i > p {
                    assert(t[i] == s[i - 1] && t[j] == s[j - 1]);
                } else if i == p {
                    if j - 1 > p {
                        assert(pair_lt((s[p as int].0@, s[p as int].1), (s[j - 1].0@, s[j - 1].1)));
                        lemma_pair_lt_facts(kn, (s[p as int].0@, s[p as int].1), (s[j - 1].0@, s[j - 1].1));
                    }
                } else {
                    assert(pair_lt((s[i].0@, s[i].1), kn));
                    if j > p {
                        if j - 1 > p {
                            assert(pair_lt((s[p as int].0@, s[p as int].1), (s[j - 1].0@, s[j - 1].1)));
                            lemma_pair_lt_facts(kn, (s[p as int].0@, s[p as int].1), (s[j - 1].0@, s[j - 1].1));
                        }
                        lemma_pair_lt_facts((s[i].0@, s[i].1), kn, (s[j - 1].0@, s[j - 1].1));
                    }
                }
            }
            let m = nonce_set(s).insert(kn);
            assert forall|x: (Seq<u8>, u64)| #[trigger] nonce_set(t).contains(x) == m.contains(x) by {
                if nonce_set(t).contains(x) {
                    let j = choose|j: int| 0 <= j < t.len() && t[j].0@ == x.0 && t[j].1 == x.1;
                    if x != kn {
                        if j < p {
                            assert(s[j] == t[j]);
                        } else {
                            assert(s[j - 1] == t[j]);
                        }
                    }
                }
                if m.contains(x) {
                    if x == kn {
                        assert(t[p as int].0@ == x.0 && t[p as int].1 == x.1);
                    } else {
                        let j = choose|j: int| 0 <= j < s.len() && s[j].0@ == x.0 && s[j].1 == x.1;
                        if j < p {
                            assert(t[j] == s[j]);
                        } else {
                            assert(t[j + 1] == s[j]);
                        }
                    }
                }
            }
            assert(nonce_set(t) =~= m);
        }
    }
}

impl Snapshot {
    /// Whether each table's keys are strictly increasing.
    pub fn is_well_formed(&self) -> (r: bool)
        ensures
            r == self.wf(),
    {
        let mut i: usize = 1;
        while i < self.amounts.len()
            invariant
                1 <= i <= self.amounts@.len() || self.amounts@.len() == 0,
                forall|a: int, b: int| 0 <= a < b < i && b < self.amounts@.len() ==> bytes_lt(#[trigger] self.amounts@[a].0@, #[trigger] self.amounts@[b].0@),
            decreases self.amounts@.len() - i,
        {
            if !self.amounts[i - 1].0.less_than(&self.amounts[i].0) {
                return false;
            }
            proof {
                assert forall|a: int| 0 <= a < i implies bytes_lt(#[trigger] self.amounts@[a].0@, self.amounts@[i as int].0@) by {
                    if a < i - 1 {
                        lemma_bytes_lt_transitive(self.amounts@[a].0@, self.amounts@[i - 1].0@, self.amounts@[i as int].0@);
                    }
                }
            }
            i = i + 1;
        }
        let mut i: usize = 1;
        while i < self.receipt_ids.len()
            invariant
                balances_sorted(self.amounts@),
                1 <= i <= self.receipt_ids@.len() || self.receipt_ids@.len() == 0,
                forall|a: int, b: int| 0 <= a < b < i && b < self.receipt_ids@.len() ==> bytes_lt(#[trigger] self.receipt_ids@[a]@, #[trigger] self.receipt_ids@[b]@),
            decreases self.receipt_ids@.len() - i,
        {
            if !crate::account::bytes_less(&self.receipt_ids[i - 1].bytes, &self.receipt_ids[i].bytes) {
                assert(!bytes_lt(self.receipt_ids@[i - 1]@, self.receipt_ids@[i as int]@));
                return false;
            }
            proof {
                assert forall|a: int| 0 <= a < i implies bytes_lt(#[trigger] self.receipt_ids@[a]@, self.receipt_ids@[i as int]@) by {
                    if a < i - 1 {
                        lemma_bytes_lt_transitive(self.receipt_ids@[a]@, self.receipt_ids@[i - 1]@, self.receipt_ids@[i as int]@);
                    }
                }
            }
            i = i + 1;
        }
        let mut i: usize = 1;
        while i < self.tx_nonces.len()
            invariant
                balances_sorted(self.amounts@),
                hashes_sorted(self.receipt_ids@),
                1 <= i <= self.tx_nonces@.len() || self.tx_nonces@.len() == 0,
                forall|a: int, b: int| 0 <= a < b < i && b < self.tx_nonces@.len() ==> pair_lt((#[trigger] self.tx_nonces@[a].0@, self.tx_nonces@[a].1), (#[trigger] self.tx_nonces@[b].0@, self.tx_nonces@[b].1)),
            decreases self.tx_nonces@.len() - i,
        {
            let p = &self.tx_nonces[i - 1];
            let q = &self.tx_nonces[i];
            if !(p.0.less_than(&q.0) || (p.0.same_as(&q.0) && p.1 < q.1)) {
                return false;
            }
            proof {
                let s = self.tx_nonces@;
                assert forall|a: int| 0 <= a < i implies pair_lt((#[trigger] s[a].0@, s[a].1), (s[i as int].0@, s[i as int].1)) by {
                    if a < i - 1 {
                        lemma_pair_lt_facts((s[a].0@, s[a].1), (s[i - 1].0@, s[i - 1].1), (s[i as int].0@, s[i as int].1));
                    }
                }
            }
            i = i + 1;
        }
        true
    }
}

} // verus!
