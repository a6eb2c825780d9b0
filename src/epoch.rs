//! The epoch index: which epoch, validator-set slot and next epoch govern the
//! block after a given block, memoized per predecessor hash.
use crate::account::AccountId;
use vstd::string::StringSliceAdditionalSpecFns;
use crate::hash::{zero_bytes, CryptoHash};
use crate::header::{BlockHeader, HeaderStore};
use crate::schedule::{account_views, flatten_nested, per_shard, shard_offset, slice_offset, ScheduleError, ValidatorSchedule};
use crate::table::Table;
use vstd::prelude::*;

verus! {

/// An epoch, named by the hash of the last block before it; the zero hash
/// names the genesis epoch.
#[derive(Clone, Copy, Debug)]
pub struct EpochId(pub CryptoHash);

impl View for EpochId {
    type V = Seq<u8>;

    open spec fn view(&self) -> Seq<u8> {
        self.0@
    }
}

/// Errors of the epoch index, for the caller to retry or abort on.
#[derive(Debug)]
pub enum EpochError {
    /// No header is stored under this hash.
    MissingBlock(CryptoHash),
    /// No validator-set slot is registered for this epoch, or its slot counter
    /// is exhausted.
    EpochOutOfBounds(EpochId),
    /// The account is no validator of the epoch.
    NotAValidator(AccountId, EpochId),
    /// The block's predecessor has not been indexed yet: blocks must be
    /// indexed ancestors first.
    AncestorNotIndexed(CryptoHash),
    /// The shard id is not one of the layout's shards.
    InvalidShardId(u64),
    /// A walk back through the headers did not reach an epoch start within
    /// 2^64 - 1 steps, which only a cycle of headers can cause.
    AncestryTooLong(CryptoHash),
}

/// A validator and its stake.
#[derive(Debug)]
pub struct ValidatorStake {
    pub account_id: AccountId,
    pub stake: u128,
}

/// The validators of one slot of the schedule.
#[derive(Debug)]
pub struct EpochValidatorSet {
    /// Block producers, in order.
    pub block_producers: Vec<ValidatorStake>,
    /// Chunk producers of each shard, by shard index.
    pub chunk_producers: Vec<Vec<ValidatorStake>>,
}

/// Every validator of `s` holds the standard stake.
pub open spec fn standard_stakes(s: Seq<ValidatorStake>) -> bool {
    forall|k: int| 0 <= k < s.len() ==> (#[trigger] s[k]).stake == VALIDATOR_STAKE
}

pub open spec fn stake_accounts(s: Seq<ValidatorStake>) -> Seq<Seq<u8>> {
    s.map_values(|v: ValidatorStake| v.account_id@)
}

/// What the index has memoized for a block hash, read from its tables: the
/// epoch (absent for the genesis sentinel), the next epoch, the slot counter
/// of the epoch, and where the epoch started.
pub struct Memo {
    pub epoch: Option<CryptoHash>,
    pub next_epoch: CryptoHash,
    pub valset: Option<u64>,
    pub start: u128,
}

/// What indexing one block derives.
pub struct Derived {
    pub epoch: CryptoHash,
    pub next_epoch: CryptoHash,
    pub valset: int,
    pub start: int,
    pub needs_next_epoch_approvals: bool,
    pub boundary: bool,
}

/// Whether the block after `prev` starts a new epoch: it does after the
/// genesis block, and once the last final height comes within three blocks of
/// the end of the current epoch.
pub open spec fn is_boundary(prev_prev_is_genesis: bool, last_final_height: int, start: int, epoch_length: int) -> bool {
    prev_prev_is_genesis || last_final_height + 3 >= start + epoch_length
}

/// One indexing step from the memo of the predecessor's predecessor.
pub open spec fn derive(
    parent: Memo,
    prev_prev_is_genesis: bool,
    prev_hash: CryptoHash,
    height: u64,
    last_final_height: int,
    epoch_length: u64,
) -> Derived {
    let boundary = is_boundary(prev_prev_is_genesis, last_final_height, parent.start as int, epoch_length as int);
    let needs = !boundary && height + 3 >= parent.start + epoch_length;
    if boundary {
        Derived {
            epoch: prev_hash,
            next_epoch: parent.next_epoch,
            valset: match parent.valset {
                Some(v) => v + 1,
                None => 0,
            },
            start: height + 1,
            needs_next_epoch_approvals: needs,
            boundary,
        }
    } else {
        Derived {
            epoch: parent.epoch.unwrap(),
            next_epoch: parent.next_epoch,
            valset: parent.valset.unwrap() as int,
            start: parent.start as int,
            needs_next_epoch_approvals: needs,
            boundary,
        }
    }
}

/// A deterministic test double of the epoch manager: validator sets come from
/// a fixed schedule reused cyclically, and epochs from the finality rule above.
pub struct MockEpochManager {
    num_shards: u64,
    epoch_length: u64,
    validators_by_valset: Vec<EpochValidatorSet>,
    headers: HeaderStore,
    hash_to_epoch: Table<CryptoHash>,
    hash_to_next_epoch_approvals_req: Table<bool>,
    hash_to_next_epoch: Table<CryptoHash>,
    hash_to_valset: Table<u64>,
    epoch_start: Table<u128>,
}

impl MockEpochManager {
    pub closed spec fn schedule_wf(&self) -> bool {
        &&& self.num_shards > 0
        &&& self.validators_by_valset@.len() > 0
        &&& forall|i: int| 0 <= i < self.validators_by_valset@.len() ==> {
            let vs = #[trigger] self.validators_by_valset@[i];
            &&& vs.block_producers@.len() > 0
            &&& vs.chunk_producers@.len() == self.num_shards
            &&& forall|s: int| 0 <= s < vs.chunk_producers@.len() ==> (#[trigger] vs.chunk_producers@[s])@.len() > 0
            &&& standard_stakes(vs.block_producers@)
            &&& forall|s: int| 0 <= s < vs.chunk_producers@.len() ==> standard_stakes((#[trigger] vs.chunk_producers@[s])@)
        }
    }

    pub closed spec fn memo_wf(&self) -> bool {
        let ep = self.hash_to_epoch.view();
        let nx = self.hash_to_next_epoch.view();
        let vs = self.hash_to_valset.view();
        let st = self.epoch_start.view();
        let ap = self.hash_to_next_epoch_approvals_req.view();
        &&& self.hash_to_epoch.wf()
        &&& self.hash_to_next_epoch.wf()
        &&& self.hash_to_valset.wf()
        &&& self.epoch_start.wf()
        &&& self.hash_to_next_epoch_approvals_req.wf()
        &&& nx.contains_key(zero_bytes())
        &&& st.contains_key(zero_bytes())
        &&& forall|k: Seq<u8>| #[trigger] st.contains_key(k) ==> st[k] <= 0x1_0000_0000_0000_0000
        &&& vs.contains_key(nx[zero_bytes()]@)
        &&& forall|k: Seq<u8>| #[trigger] nx.contains_key(k) ==> k == zero_bytes() || ep.contains_key(k)
        &&& forall|k: Seq<u8>| #[trigger] nx.contains_key(k) ==> nx[k]@ == zero_bytes()
        &&& !ep.contains_key(zero_bytes())
        &&& forall|k: Seq<u8>| #[trigger] st.contains_key(k) ==> k == zero_bytes() || ep.contains_key(k)
        &&& forall|e: Seq<u8>|
            #[trigger] vs.contains_key(e) && e != zero_bytes() ==> ep.contains_key(e) && ep[e]@ == e
        &&& forall|k: Seq<u8>| #[trigger] ep.contains_key(k) ==> {
            &&& ep[k]@ != zero_bytes()
            &&& nx.contains_key(k)
            &&& st.contains_key(k)
            &&& ap.contains_key(k)
            &&& vs.contains_key(ep[k]@)
            &&& vs.contains_key(nx[k]@)
        }
    }

    pub closed spec fn wf(&self) -> bool {
        &&& self.schedule_wf()
        &&& self.memo_wf()
        &&& self.headers.wf()
    }

    pub closed spec fn epoch_length_spec(&self) -> u64 {
        self.epoch_length
    }

    pub closed spec fn num_shards_spec(&self) -> u64 {
        self.num_shards
    }

    /// The stored headers.
    pub closed spec fn headers_view(&self) -> Map<Seq<u8>, BlockHeader> {
        self.headers.view()
    }

    /// The schedule's validator sets.
    pub closed spec fn valsets(&self) -> Seq<EpochValidatorSet> {
        self.validators_by_valset@
    }

    /// The registered slot counter of each epoch.
    pub closed spec fn valset_of_epoch(&self) -> Map<Seq<u8>, u64> {
        self.hash_to_valset.view()
    }

    /// Whether indexing has recorded that next-epoch approvals are needed after `h`.
    pub closed spec fn approvals_needed(&self) -> Map<Seq<u8>, bool> {
        self.hash_to_next_epoch_approvals_req.view()
    }

    /// Whether `h` is the genesis sentinel or an indexed block.
    pub open spec fn is_indexed(&self, h: Seq<u8>) -> bool {
        self.memo_next().contains_key(h)
    }

    pub closed spec fn memo_next(&self) -> Map<Seq<u8>, CryptoHash> {
        self.hash_to_next_epoch.view()
    }

    /// The memo of an indexed hash.
    pub open spec fn memo(&self, h: Seq<u8>) -> Memo {
        let ep = self.memo_epoch();
        Memo {
            epoch: if ep.contains_key(h) {
                Some(ep[h])
            } else {
                None
            },
            next_epoch: self.memo_next()[h],
            valset: if ep.contains_key(h) {
                Some(self.valset_of_epoch()[ep[h]@])
            } else {
                None
            },
            start: self.memo_start()[h],
        }
    }

    /// What a well-formed index holds of a hash it has memoized: an entry in
    /// every table, an epoch other than the genesis sentinel that is
    /// registered with a slot and named after its own first predecessor, and
    /// the zero hash as next epoch, which every epoch inherits from genesis.
    pub proof fn lemma_memo_facts(&self, h: Seq<u8>)
        requires
            self.wf(),
            self.memo_epoch().contains_key(h),
        ensures
            self.is_indexed(h),
            self.memo_start().contains_key(h),
            self.approvals_needed().contains_key(h),
            self.memo_epoch()[h]@ != zero_bytes(),
            self.valset_of_epoch().contains_key(self.memo_epoch()[h]@),
            self.memo_epoch().contains_key(self.memo_epoch()[h]@),
            self.memo_epoch()[self.memo_epoch()[h]@]@ == self.memo_epoch()[h]@,
            self.memo_next()[h]@ == zero_bytes(),
    {
    }

    /// The genesis sentinel is indexed, with the zero hash as next epoch and
    /// a registered slot; every other indexed hash is memoized.
    pub proof fn lemma_indexed_facts(&self, h: Seq<u8>)
        requires
            self.wf(),
        ensures
            self.is_indexed(zero_bytes()),
            self.memo_next()[zero_bytes()]@ == zero_bytes(),
            self.valset_of_epoch().contains_key(zero_bytes()),
            self.memo_start().contains_key(zero_bytes()),
            self.is_indexed(h) && h != zero_bytes() ==> self.memo_epoch().contains_key(h),
    {
    }

    /// The height of the last final block named by a header: zero for the
    /// sentinel.
    pub open spec fn last_final_height(&self, h: BlockHeader) -> int {
        if h.last_final_block@ == zero_bytes() {
            0
        } else {
            self.headers_view()[h.last_final_block@].height as int
        }
    }

    /// The slot index that a counter selects: the schedule is reused cyclically.
    pub open spec fn slot(&self, valset: int) -> int {
        valset % (self.valsets().len() as int)
    }
}

/// The errors of the epoch index, as values.
pub enum EpochErrorView {
    MissingBlock(Seq<u8>),
    EpochOutOfBounds(Seq<u8>),
    NotAValidator(Seq<u8>, Seq<u8>),
    AncestorNotIndexed(Seq<u8>),
    InvalidShardId(u64),
    AncestryTooLong(Seq<u8>),
}

impl View for EpochError {
    type V = EpochErrorView;

    open spec fn view(&self) -> EpochErrorView {
        match self {
            EpochError::MissingBlock(h) => EpochErrorView::MissingBlock(h@),
            EpochError::EpochOutOfBounds(e) => EpochErrorView::EpochOutOfBounds(e@),
            EpochError::NotAValidator(a, e) => EpochErrorView::NotAValidator(a@, e@),
            EpochError::AncestorNotIndexed(h) => EpochErrorView::AncestorNotIndexed(h@),
            EpochError::InvalidShardId(s) => EpochErrorView::InvalidShardId(*s),
            EpochError::AncestryTooLong(h) => EpochErrorView::AncestryTooLong(h@),
        }
    }
}

/// `r` is an error and that error is `v`.
pub open spec fn fails_with<T>(r: Result<T, EpochError>, v: EpochErrorView) -> bool {
    match r {
        Err(e) => e@ == v,
        Ok(_) => false,
    }
}

impl MockEpochManager {
    pub closed spec fn memo_epoch(&self) -> Map<Seq<u8>, CryptoHash> {
        self.hash_to_epoch.view()
    }

    pub closed spec fn memo_start(&self) -> Map<Seq<u8>, u128> {
        self.epoch_start.view()
    }

    /// Indexing the block after `prev_hash`, as a value: the error that stops
    /// it, or what it derives. The genesis sentinel is answered directly.
    pub open spec fn index_step(&self, prev_hash: CryptoHash) -> Result<Derived, EpochErrorView> {
        let hs = self.headers_view();
        if !hs.contains_key(prev_hash@) {
            Err(EpochErrorView::MissingBlock(prev_hash@))
        } else {
            let h = hs[prev_hash@];
            let pp = h.prev_hash@;
            if !self.is_indexed(pp) {
                Err(EpochErrorView::AncestorNotIndexed(pp))
            } else if h.last_final_block@ != zero_bytes() && !hs.contains_key(h.last_final_block@) {
                Err(EpochErrorView::MissingBlock(h.last_final_block@))
            } else {
                let d = derive(
                    self.memo(pp),
                    pp == zero_bytes(),
                    prev_hash,
                    h.height,
                    self.last_final_height(h),
                    self.epoch_length_spec(),
                );
                if d.valset + 1 > u64::MAX {
                    Err(EpochErrorView::EpochOutOfBounds(d.epoch@))
                } else {
                    Ok(d)
                }
            }
        }
    }

    /// Everything but the memo tables is as before.
    pub open spec fn same_schedule(&self, o: &MockEpochManager) -> bool {
        &&& self.valsets() == o.valsets()
        &&& self.headers_view() == o.headers_view()
        &&& self.epoch_length_spec() == o.epoch_length_spec()
        &&& self.num_shards_spec() == o.num_shards_spec()
    }

    /// Nothing has changed that a query can see.
    pub open spec fn unchanged(&self, o: &MockEpochManager) -> bool {
        &&& self.same_schedule(o)
        &&& self.memo_epoch() == o.memo_epoch()
        &&& self.memo_next() == o.memo_next()
        &&& self.valset_of_epoch() == o.valset_of_epoch()
        &&& self.approvals_needed() == o.approvals_needed()
        &&& self.memo_start() == o.memo_start()
    }

    /// How indexing the block after `prev_hash` changes the memo tables: no
    /// memoized entry changes, no epoch but the genesis sentinel changes its
    /// slot, and every memoized answer stays as it was. Nothing changes for
    /// the genesis sentinel, a hash indexed before, or on error; otherwise every table
    /// gains the derived entry of `prev_hash`, and the slot counters of the
    /// derived epoch and of the next epoch are registered.
    pub open spec fn index_effect(&self, after: &MockEpochManager, prev_hash: CryptoHash) -> bool {
        &&& after.wf()
        &&& after.same_schedule(self)
        &&& self.memo_epoch().submap_of(after.memo_epoch())
        &&& self.memo_next().submap_of(after.memo_next())
        &&& self.memo_start().submap_of(after.memo_start())
        &&& forall|e: Seq<u8>|
            #[trigger] self.valset_of_epoch().contains_key(e) && e != zero_bytes() ==> after.valset_of_epoch().contains_key(e)
                && after.valset_of_epoch()[e] == self.valset_of_epoch()[e]
        &&& forall|h: CryptoHash| self.memo_epoch().contains_key(h@) ==> #[trigger] after.answer_after(h) == self.answer_after(h)
        &&& if prev_hash@ == zero_bytes() || self.memo_epoch().contains_key(prev_hash@) {
            after.unchanged(self)
        } else {
            match self.index_step(prev_hash) {
                Err(_) => after.unchanged(self),
                Ok(d) => {
                    &&& after.memo_epoch() == self.memo_epoch().insert(prev_hash@, d.epoch)
                    &&& after.memo_next() == self.memo_next().insert(prev_hash@, d.next_epoch)
                    &&& after.valset_of_epoch() == self.valset_of_epoch().insert(d.epoch@, d.valset as u64).insert(
                        d.next_epoch@,
                        (d.valset + 1) as u64,
                    )
                    &&& after.approvals_needed() == self.approvals_needed().insert(
                        prev_hash@,
                        d.needs_next_epoch_approvals,
                    )
                    &&& after.memo_start() == self.memo_start().insert(prev_hash@, d.start as u128)
                },
            }
        }
    }

    /// What indexing the block after `prev_hash` answers: the epoch, the
    /// slot and the next epoch, or the error. A hash indexed before is
    /// answered from its memo.
    pub open spec fn answer_after(&self, prev_hash: CryptoHash) -> Result<(Seq<u8>, int, Seq<u8>), EpochErrorView> {
        if prev_hash@ == zero_bytes() {
            Ok((zero_bytes(), 0, zero_bytes()))
        } else if self.memo_epoch().contains_key(prev_hash@) {
            let e = self.memo_epoch()[prev_hash@]@;
            Ok((e, self.slot(self.valset_of_epoch()[e] as int), self.memo_next()[prev_hash@]@))
        } else {
            match self.index_step(prev_hash) {
                Err(v) => Err(v),
                Ok(d) => Ok((d.epoch@, self.slot(d.valset), d.next_epoch@)),
            }
        }
    }

    /// The epoch, the validator-set slot and the next epoch that govern the
    /// block after `prev_hash`; the result is memoized under `prev_hash`, and
    /// a memoized hash is answered from its memo without recomputing.
    /// The predecessor of `prev_hash` must have been indexed before.
    pub fn get_epoch_and_valset(&mut self, prev_hash: CryptoHash) -> (r: Result<(EpochId, usize, EpochId), EpochError>)
        requires
            old(self).wf(),
        ensures
            old(self).index_effect(final(self), prev_hash),
            match old(self).answer_after(prev_hash) {
                Err(v) => fails_with(r, v),
                Ok((e, i, n)) => r is Ok && r.unwrap().0@ == e && r.unwrap().1 == i && r.unwrap().2@ == n,
            },
            prev_hash@ != zero_bytes() && !old(self).memo_epoch().contains_key(prev_hash@) ==> match old(
                self,
            ).index_step(prev_hash) {
                Err(_) => true,
                Ok(d) => {
                    &&& final(self).is_indexed(prev_hash@)
                    &&& d.next_epoch@ == zero_bytes()
                    &&& d.epoch@ != d.next_epoch@
                    &&& d.boundary ==> d.epoch@ == prev_hash@
                    &&& final(self).valset_of_epoch()[d.epoch@] == d.valset
                    &&& final(self).valset_of_epoch()[d.next_epoch@] == d.valset + 1
                    &&& final(self).memo(prev_hash@) == as_parent(d)
                },
            },
    {
        if prev_hash.is_zero() {
            return Ok((EpochId(prev_hash), 0, EpochId(prev_hash)));
        }
        let slots = self.validators_by_valset.len() as u64;
        match self.hash_to_epoch.get(&prev_hash) {
            Some(e) => {
                let e = *e;
                let v = *self.hash_to_valset.get(&e).unwrap();
                let n = *self.hash_to_next_epoch.get(&prev_hash).unwrap();
                return Ok((EpochId(e), (v % slots) as usize, EpochId(n)));
            },
            None => {},
        }
        let ghost s0 = *self;
        let h = match self.headers.get(&prev_hash) {
            Some(h) => h,
            None => return Err(EpochError::MissingBlock(prev_hash)),
        };
        let pp = h.prev_hash;
        let pp_zero = pp.is_zero();
        let prev_next = match self.hash_to_next_epoch.get(&pp) {
            Some(x) => *x,
            None => return Err(EpochError::AncestorNotIndexed(pp)),
        };
        let prev_epoch: Option<CryptoHash> = match self.hash_to_epoch.get(&pp) {
            Some(e) => Some(*e),
            None => None,
        };
        let prev_valset: Option<u64> = match prev_epoch {
            Some(e) => match self.hash_to_valset.get(&e) {
                Some(v) => Some(*v),
                None => None,
            },
            None => None,
        };
        let prev_start: u128 = match self.epoch_start.get(&pp) {
            Some(x) => *x,
            None => 0,
        };
        let lfh: u64 = if h.last_final_block.is_zero() {
            0
        } else {
            match self.headers.get(&h.last_final_block) {
                Some(x) => x.height,
                None => return Err(EpochError::MissingBlock(h.last_final_block)),
            }
        };
        let ghost d = derive(
            self.memo(pp@),
            pp@ == zero_bytes(),
            prev_hash,
            h.height,
            self.last_final_height(h),
            self.epoch_length,
        );
        assert(self.memo(pp@).epoch == prev_epoch);
        assert(self.memo(pp@).valset == prev_valset);
        let len = self.epoch_length as u128;
        let boundary = pp_zero || (lfh as u128) + 3 >= prev_start + len;
        let needs = !boundary && (h.height as u128) + 3 >= prev_start + len;
        let epoch: CryptoHash;
        let next: CryptoHash;
        let valset: u64;
        let start: u128;
        if boundary {
            valset = match prev_valset {
                Some(v) => {
                    if v >= u64::MAX - 1 {
                        return Err(EpochError::EpochOutOfBounds(EpochId(prev_hash)));
                    }
                    v + 1
                },
                None => 0,
            };
            epoch = prev_hash;
            next = prev_next;
            start = (h.height as u128) + 1;
        } else {
            epoch = prev_epoch.unwrap();
            valset = prev_valset.unwrap();
            if valset == u64::MAX {
                return Err(EpochError::EpochOutOfBounds(EpochId(epoch)));
            }
            next = prev_next;
            start = prev_start;
        }
        assert(epoch == d.epoch && next == d.next_epoch && valset == d.valset && start == d.start);
        self.hash_to_next_epoch.insert(prev_hash, next);
        self.hash_to_epoch.insert(prev_hash, epoch);
        self.hash_to_next_epoch_approvals_req.insert(prev_hash, needs);
        self.hash_to_valset.insert(epoch, valset);
        self.hash_to_valset.insert(next, valset + 1);
        self.epoch_start.insert(prev_hash, start);
        proof {
            assert(!s0.memo_epoch().contains_key(prev_hash@));
            assert forall|e: Seq<u8>|
                #[trigger] s0.valset_of_epoch().contains_key(e) && e != zero_bytes() implies self.valset_of_epoch().contains_key(e)
                    && self.valset_of_epoch()[e] == s0.valset_of_epoch()[e] by {
                if e == epoch@ && boundary {
                    assert(s0.memo_epoch().contains_key(e));
                }
            }
            assert forall|x: CryptoHash| s0.memo_epoch().contains_key(x@) implies #[trigger] self.answer_after(x) == s0.answer_after(x) by {
                assert(x@ != prev_hash@);
                assert(x@ != zero_bytes());
                let e = s0.memo_epoch()[x@]@;
                assert(e != zero_bytes());
                assert(s0.valset_of_epoch().contains_key(e));
                assert(self.memo_epoch()[x@] == s0.memo_epoch()[x@]);
                assert(self.memo_next()[x@] == s0.memo_next()[x@]);
                assert(self.valset_of_epoch()[e] == s0.valset_of_epoch()[e]);
            }
            assert(s0.memo_epoch().submap_of(self.memo_epoch()));
            assert(s0.memo_next().submap_of(self.memo_next()));
            assert(s0.memo_start().submap_of(self.memo_start()));
        }
        Ok((EpochId(epoch), (valset % slots) as usize, EpochId(next)))
    }
}

/// The memo that indexing a block leaves for its child to read.
pub open spec fn as_parent(d: Derived) -> Memo {
    Memo { epoch: Some(d.epoch), next_epoch: d.next_epoch, valset: Some(d.valset as u64), start: d.start as u128 }
}

/// The memo of the genesis sentinel.
pub open spec fn genesis_memo() -> Memo {
    Memo { epoch: None, next_epoch: choose|h: CryptoHash| h@ == zero_bytes(), valset: None, start: 0 }
}

/// `ds` is what indexing derives along a chain of blocks that starts at the
/// genesis block: block `i` has hash `hashes[i]`, height `heights[i]` and last
/// final height `finals[i]`, and each block's predecessor is the one before it.
pub open spec fn chain_derivation(
    ds: Seq<Derived>,
    hashes: Seq<CryptoHash>,
    heights: Seq<u64>,
    finals: Seq<int>,
    epoch_length: u64,
) -> bool {
    &&& ds.len() == hashes.len() && ds.len() == heights.len() && ds.len() == finals.len()
    &&& ds.len() > 0 ==> ds[0] == derive(genesis_memo(), true, hashes[0], heights[0], finals[0], epoch_length)
    &&& forall|i: int|
        0 < i < ds.len() ==> #[trigger] ds[i] == derive(
            as_parent(ds[i - 1]),
            false,
            hashes[i],
            heights[i],
            finals[i],
            epoch_length,
        )
}

/// Along a chain indexed in causal order the slot counter never decreases,
/// and it grows by exactly one at each epoch boundary and nowhere else.
pub proof fn lemma_valset_along_chain(
    ds: Seq<Derived>,
    hashes: Seq<CryptoHash>,
    heights: Seq<u64>,
    finals: Seq<int>,
    epoch_length: u64,
)
    requires
        chain_derivation(ds, hashes, heights, finals, epoch_length),
        forall|i: int| 0 <= i < ds.len() ==> 0 <= (#[trigger] ds[i]).valset < u64::MAX,
    ensures
        ds.len() > 0 ==> ds[0].valset == 0,
        forall|i: int|
            0 < i < ds.len() ==> #[trigger] ds[i].valset == ds[i - 1].valset + if ds[i].boundary {
                1int
            } else {
                0int
            },
        forall|i: int, j: int| 0 <= i <= j < ds.len() ==> (#[trigger] ds[i]).valset <= (#[trigger] ds[j]).valset,
{
    assert forall|i: int|
        0 < i < ds.len() implies #[trigger] ds[i].valset == ds[i - 1].valset + if ds[i].boundary {
            1int
        } else {
            0int
        } by {
        assert(0 <= ds[i - 1].valset < u64::MAX);
    }
    assert forall|i: int, j: int| 0 <= i <= j < ds.len() implies (#[trigger] ds[i]).valset <= (
    #[trigger] ds[j]).valset by {
        lemma_valset_monotone(ds, hashes, heights, finals, epoch_length, i, j);
    }
}

proof fn lemma_valset_monotone(
    ds: Seq<Derived>,
    hashes: Seq<CryptoHash>,
    heights: Seq<u64>,
    finals: Seq<int>,
    epoch_length: u64,
    i: int,
    j: int,
)
    requires
        chain_derivation(ds, hashes, heights, finals, epoch_length),
        forall|k: int| 0 <= k < ds.len() ==> 0 <= (#[trigger] ds[k]).valset < u64::MAX,
        0 <= i <= j < ds.len(),
    ensures
        ds[i].valset <= ds[j].valset,
    decreases j - i,
{
    if i < j {
        lemma_valset_monotone(ds, hashes, heights, finals, epoch_length, i, j - 1);
        assert(ds[j] == derive(as_parent(ds[j - 1]), false, hashes[j], heights[j], finals[j], epoch_length));
        assert(0 <= ds[j - 1].valset < u64::MAX);
    }
}

/// The stake that every validator of the schedule holds.
pub const VALIDATOR_STAKE: u128 = 1_000_000;

/// Appends a validator of the standard stake for each of `accounts[from..to]`.
fn append_stakes(out: &mut Vec<ValidatorStake>, accounts: &Vec<AccountId>, from: usize, to: usize)
    requires
        from <= to <= accounts@.len(),
    ensures
        stake_accounts(final(out)@) == stake_accounts(old(out)@) + account_views(accounts@).subrange(
            from as int,
            to as int,
        ),
        standard_stakes(old(out)@) ==> standard_stakes(final(out)@),
{
    let ghost o = stake_accounts(out@);
    let mut j: usize = from;
    while j < to
        invariant
            from <= j <= to <= accounts@.len(),
            o == stake_accounts(old(out)@),
            stake_accounts(out@) == o + account_views(accounts@).subrange(from as int, j as int),
            standard_stakes(old(out)@) ==> standard_stakes(out@),
        decreases to - j,
    {
        let ghost before = out@;
        out.push(ValidatorStake { account_id: accounts[j].duplicate(), stake: VALIDATOR_STAKE });
        proof {
            assert(stake_accounts(out@) =~= stake_accounts(before).push(accounts@[j as int]@));
            assert(account_views(accounts@).subrange(from as int, j + 1) =~= account_views(accounts@).subrange(
                from as int,
                j as int,
            ).push(accounts@[j as int]@));
        }
        j = j + 1;
    }
}

/// The validator sets of a usable schedule.
fn build_valsets(vs: &ValidatorSchedule) -> (r: Vec<EpochValidatorSet>)
    requires
        vs.schedule_error().is_none(),
    ensures
        r@.len() == vs.block_producers@.len(),
        forall|e: int| 0 <= e < r@.len() ==> {
            let v = #[trigger] r@[e];
            &&& stake_accounts(v.block_producers@) == account_views(vs.block_producers@[e]@)
            &&& v.chunk_producers@.len() == vs.num_shards
            &&& forall|s: int|
                0 <= s < vs.num_shards ==> stake_accounts((#[trigger] v.chunk_producers@[s])@)
                    == vs.expected_chunk_producers(e, s)
            &&& standard_stakes(v.block_producers@)
            &&& forall|s: int| 0 <= s < vs.num_shards ==> standard_stakes((#[trigger] v.chunk_producers@[s])@)
        },
{
    let bps = &vs.block_producers;
    let co = &vs.chunk_only_producers;
    let n = vs.num_shards;
    let g = vs.validator_groups;
    let mut out: Vec<EpochValidatorSet> = Vec::new();
    let mut e: usize = 0;
    while e < bps.len()
        invariant
            vs.schedule_error().is_none(),
            bps == &vs.block_producers,
            co == &vs.chunk_only_producers,
            n == vs.num_shards,
            g == vs.validator_groups,
            0 <= e <= bps@.len(),
            out@.len() == e,
            forall|i: int| 0 <= i < e ==> {
                let v = #[trigger] out@[i];
                &&& stake_accounts(v.block_producers@) == account_views(vs.block_producers@[i]@)
                &&& v.chunk_producers@.len() == vs.num_shards
                &&& forall|s: int|
                    0 <= s < vs.num_shards ==> stake_accounts((#[trigger] v.chunk_producers@[s])@)
                        == vs.expected_chunk_producers(i, s)
                &&& standard_stakes(v.block_producers@)
                &&& forall|s: int| 0 <= s < vs.num_shards ==> standard_stakes((#[trigger] v.chunk_producers@[s])@)
            },
        decreases bps@.len() - e,
    {
        let accounts = &bps[e];
        let alen: usize = accounts.len();
        let len = alen as u64;
        assert(vs.slot_len(e as int) == len);
        assert(per_shard(vs.slot_len(e as int), g as int) != 0);
        let vps = len / g;
        let mut block_producers: Vec<ValidatorStake> = Vec::new();
        assert(standard_stakes(block_producers@));
        assert(stake_accounts(block_producers@) =~= Seq::<Seq<u8>>::empty());
        append_stakes(&mut block_producers, accounts, 0, accounts.len());
        assert(account_views(accounts@).subrange(0, accounts@.len() as int) =~= account_views(accounts@));
        assert(stake_accounts(block_producers@) =~= account_views(accounts@));
        let mut chunk_producers: Vec<Vec<ValidatorStake>> = Vec::new();
        let mut t: u64 = 0;
        while t < n
            invariant
                vs.schedule_error().is_none(),
                bps == &vs.block_producers,
                co == &vs.chunk_only_producers,
                n == vs.num_shards,
                g == vs.validator_groups,
                0 <= e < bps@.len(),
                accounts == &bps@[e as int],
                len == vs.slot_len(e as int),
                len == alen,
                alen == accounts@.len(),
                vps == len / g,
                vps > 0,
                stake_accounts(block_producers@) == account_views(vs.block_producers@[e as int]@),
                standard_stakes(block_producers@),
                out@.len() == e,
                forall|i: int| 0 <= i < e ==> {
                    let v = #[trigger] out@[i];
                    &&& stake_accounts(v.block_producers@) == account_views(vs.block_producers@[i]@)
                    &&& v.chunk_producers@.len() == vs.num_shards
                    &&& forall|s: int|
                        0 <= s < vs.num_shards ==> stake_accounts((#[trigger] v.chunk_producers@[s])@)
                            == vs.expected_chunk_producers(i, s)
                    &&& standard_stakes(v.block_producers@)
                    &&& forall|s: int| 0 <= s < vs.num_shards ==> standard_stakes((#[trigger] v.chunk_producers@[s])@)
                },
                chunk_producers@.len() == t,
                t <= n,
                forall|s: int|
                    0 <= s < t ==> stake_accounts((#[trigger] chunk_producers@[s])@)
                        == vs.expected_chunk_producers(e as int, s),
                forall|s: int| 0 <= s < t ==> standard_stakes((#[trigger] chunk_producers@[s])@),
            decreases n - t,
        {
            let off = slice_offset(len, n, g, t);
            assert(shard_offset(vs.slot_len(e as int), n as int, g as int, t as int) + per_shard(
                vs.slot_len(e as int),
                g as int,
            ) <= vs.slot_len(e as int));
            assert(off + vps <= len);
            let from = off as usize;
            let to = from + vps as usize;
            let mut cps: Vec<ValidatorStake> = Vec::new();
            assert(standard_stakes(cps@));
            assert(stake_accounts(cps@) =~= Seq::<Seq<u8>>::empty());
            append_stakes(&mut cps, accounts, from, to);
            let ghost share = account_views(accounts@).subrange(from as int, to as int);
            assert(stake_accounts(cps@) =~= share);
            if co.len() > 0 {
                assert(co@[e as int]@.len() == n);
                let row = &co[e];
                let rl: usize = row.len();
                assert(t < rl);
                let extra = &row[t as usize];
                assert(extra@ == vs.chunk_only_producers@[e as int]@[t as int]@);
                let ghost before = stake_accounts(cps@);
                append_stakes(&mut cps, extra, 0, extra.len());
                assert(stake_accounts(cps@) == before + account_views(extra@).subrange(0, extra@.len() as int));
                assert(account_views(extra@).subrange(0, extra@.len() as int) =~= account_views(extra@));
                assert(stake_accounts(cps@) == share + account_views(vs.chunk_only_producers@[e as int]@[t as int]@));
            } else {
                assert(share + Seq::<Seq<u8>>::empty() =~= share);
            }
            assert(stake_accounts(cps@) == vs.expected_chunk_producers(e as int, t as int));
            chunk_producers.push(cps);
            t = t + 1;
        }
        let ghost cp = chunk_producers@;
        let ghost bp = block_producers@;
        let ghost out0 = out@;
        out.push(EpochValidatorSet { block_producers, chunk_producers });
        proof {
            assert(out@[e as int].chunk_producers@ == cp);
            assert(out@[e as int].block_producers@ == bp);
            assert forall|i: int| 0 <= i < e + 1 implies {
                let v = #[trigger] out@[i];
                &&& stake_accounts(v.block_producers@) == account_views(vs.block_producers@[i]@)
                &&& v.chunk_producers@.len() == vs.num_shards
                &&& forall|s: int|
                    0 <= s < vs.num_shards ==> stake_accounts((#[trigger] v.chunk_producers@[s])@)
                        == vs.expected_chunk_producers(i, s)
                &&& standard_stakes(v.block_producers@)
                &&& forall|s: int| 0 <= s < vs.num_shards ==> standard_stakes((#[trigger] v.chunk_producers@[s])@)
            } by {
                if i < e {
                    assert(out@[i] == out0[i]);
                } else {
                    assert forall|s: int| 0 <= s < vs.num_shards implies stake_accounts((#[trigger] out@[i].chunk_producers@[s])@)
                        == vs.expected_chunk_producers(i, s) by {
                        assert(out@[i].chunk_producers@[s] == cp[s]);
                    }
                    assert forall|s: int| 0 <= s < vs.num_shards implies standard_stakes((#[trigger] out@[i].chunk_producers@[s])@) by {
                        assert(out@[i].chunk_producers@[s] == cp[s]);
                    }
                }
            }
        }
        e = e + 1;
    }
    out
}

impl MockEpochManager {
    /// An index over the validator sets of `vs`, with epochs of
    /// `epoch_length` blocks, no headers, and only the genesis sentinel
    /// indexed.
    pub fn new_with_validators(vs: ValidatorSchedule, epoch_length: u64) -> (r: Result<MockEpochManager, ScheduleError>)
        ensures
            match r {
                Err(e) => vs.schedule_error() == Some(e),
                Ok(m) => {
                    &&& vs.schedule_error().is_none()
                    &&& m.wf()
                    &&& m.epoch_length_spec() == epoch_length
                    &&& m.num_shards_spec() == vs.num_shards
                    &&& m.valsets().len() == vs.block_producers@.len()
                    &&& forall|e: int| 0 <= e < m.valsets().len() ==> {
                        let v = #[trigger] m.valsets()[e];
                        &&& stake_accounts(v.block_producers@) == account_views(vs.block_producers@[e]@)
                        &&& forall|s: int|
                            0 <= s < vs.num_shards ==> stake_accounts((#[trigger] v.chunk_producers@[s])@)
                                == vs.expected_chunk_producers(e, s)
                        &&& standard_stakes(v.block_producers@)
                        &&& forall|s: int| 0 <= s < vs.num_shards ==> standard_stakes((#[trigger] v.chunk_producers@[s])@)
                    }
                    &&& m.headers_view() == Map::<Seq<u8>, BlockHeader>::empty()
                    &&& m.memo_epoch() == Map::<Seq<u8>, CryptoHash>::empty()
                    &&& m.approvals_needed() == Map::<Seq<u8>, bool>::empty()
                    &&& m.memo_next().dom() == set![zero_bytes()]
                    &&& m.memo_next()[zero_bytes()]@ == zero_bytes()
                    &&& m.valset_of_epoch() == map![zero_bytes() => 0u64]
                    &&& m.memo_start() == map![zero_bytes() => 0u128]
                },
            },
    {
        match vs.check() {
            Some(e) => return Err(e),
            None => {},
        }
        let valsets = build_valsets(&vs);
        let zero = CryptoHash::zero();
        let mut next: Table<CryptoHash> = Table::new();
        next.insert(zero, zero);
        let mut valset: Table<u64> = Table::new();
        valset.insert(zero, 0);
        let mut start: Table<u128> = Table::new();
        start.insert(zero, 0);
        let m = MockEpochManager {
            num_shards: vs.num_shards,
            epoch_length,
            validators_by_valset: valsets,
            headers: HeaderStore::new(),
            hash_to_epoch: Table::new(),
            hash_to_next_epoch_approvals_req: Table::new(),
            hash_to_next_epoch: next,
            hash_to_valset: valset,
            epoch_start: start,
        };
        proof {
            assert(m.memo_next().dom() =~= set![zero_bytes()]);
            assert(m.valset_of_epoch() =~= map![zero_bytes() => 0u64]);
            assert(m.memo_start() =~= map![zero_bytes() => 0u128]);
            assert forall|i: int| 0 <= i < m.validators_by_valset@.len() implies {
                let v = #[trigger] m.validators_by_valset@[i];
                &&& v.block_producers@.len() > 0
                &&& v.chunk_producers@.len() == m.num_shards
                &&& forall|s: int| 0 <= s < v.chunk_producers@.len() ==> (#[trigger] v.chunk_producers@[s])@.len() > 0
                &&& standard_stakes(v.block_producers@)
                &&& forall|s: int| 0 <= s < v.chunk_producers@.len() ==> standard_stakes((#[trigger] v.chunk_producers@[s])@)
            } by {
                let v = m.validators_by_valset@[i];
                assert(vs.slot_len(i) > 0) by {
                    assert(per_shard(vs.slot_len(i), vs.validator_groups as int) != 0);
                }
                assert(stake_accounts(v.block_producers@).len() == v.block_producers@.len());
                assert forall|s: int| 0 <= s < v.chunk_producers@.len() implies (#[trigger] v.chunk_producers@[s])@.len() > 0 by {
                    assert(stake_accounts(v.chunk_producers@[s]@) == vs.expected_chunk_producers(i, s));
                    let len = vs.slot_len(i);
                    let off = shard_offset(len, vs.num_shards as int, vs.validator_groups as int, s);
                    assert(per_shard(len, vs.validator_groups as int) != 0);
                    assert(off + per_shard(len, vs.validator_groups as int) <= len);
                    assert(vs.expected_chunk_producers(i, s).len() >= per_shard(len, vs.validator_groups as int));
                }
            }
        }
        Ok(m)
    }
}

impl ValidatorStake {
    pub fn duplicate(&self) -> (r: ValidatorStake)
        ensures
            r.account_id@ == self.account_id@,
            r.stake == self.stake,
    {
        ValidatorStake { account_id: self.account_id.duplicate(), stake: self.stake }
    }
}

/// The stake of a validator that may approve a block, in this epoch and in the next.
#[derive(Debug)]
pub struct ApprovalStake {
    pub account_id: AccountId,
    pub stake_this_epoch: u128,
    pub stake_next_epoch: u128,
}

pub open spec fn approval_views(s: Seq<ApprovalStake>) -> Seq<(Seq<u8>, u128, u128)> {
    s.map_values(|a: ApprovalStake| (a.account_id@, a.stake_this_epoch, a.stake_next_epoch))
}

pub open spec fn as_approvals(s: Seq<ValidatorStake>, next: bool) -> Seq<(Seq<u8>, u128, u128)> {
    s.map_values(
        |v: ValidatorStake|
            if next {
                (v.account_id@, 0u128, v.stake)
            } else {
                (v.account_id@, v.stake, 0u128)
            },
    )
}

/// The total number of state parts for `num_shards` shards.
pub open spec fn total_parts(num_shards: u64) -> int {
    12 + (num_shards + 1) % 50
}

/// How many of the state parts carry data.
pub open spec fn data_parts(num_shards: u64) -> int {
    let t = total_parts(num_shards);
    if t <= 3 {
        1
    } else {
        (t - 1) / 3
    }
}

/// The index, among the block producers of an epoch, of the owner of a state part.
pub open spec fn part_owner_index(num_producers: int, num_shards: u64, part_id: u64) -> int {
    owner_index(num_producers, total_parts(num_shards), data_parts(num_shards), part_id as int)
}

/// The owner's index from the producer count, the part counts and the part id.
pub open spec fn owner_index(num_producers: int, total: int, data: int, part_id: int) -> int {
    (part_id + data + total) % num_producers
}

impl MockEpochManager {
    /// The block producers of slot `slot`, by name.
    pub open spec fn bp_accounts(&self, slot: int) -> Seq<Seq<u8>> {
        stake_accounts(self.valsets()[slot].block_producers@)
    }

    /// The chunk producers of shard `shard` in slot `slot`, by name.
    pub open spec fn cp_accounts(&self, slot: int, shard: int) -> Seq<Seq<u8>> {
        stake_accounts(self.valsets()[slot].chunk_producers@[shard]@)
    }

    /// The owner of state part `part_id` in a registered epoch.
    pub open spec fn part_owner(&self, epoch: Seq<u8>, part_id: u64) -> Seq<u8> {
        let bps = self.bp_accounts(self.epoch_slot(epoch));
        bps[part_owner_index(bps.len() as int, self.num_shards_spec(), part_id)]
    }

    /// The slot of a registered epoch.
    pub open spec fn epoch_slot(&self, epoch: Seq<u8>) -> int {
        self.slot(self.valset_of_epoch()[epoch] as int)
    }

    proof fn lemma_slot_facts(&self, i: int)
        requires
            self.wf(),
            0 <= i < self.valsets().len(),
        ensures
            self.valsets()[i].block_producers@.len() > 0,
            self.valsets()[i].chunk_producers@.len() == self.num_shards_spec(),
            forall|s: int| 0 <= s < self.num_shards_spec() ==> (#[trigger] self.valsets()[i].chunk_producers@[s])@.len() > 0,
    {
    }

    /// A well-formed index has at least one shard and one slot.
    pub proof fn lemma_wf_sizes(&self)
        requires
            self.wf(),
        ensures
            self.num_shards_spec() > 0,
            self.valsets().len() > 0,
    {
    }

    pub fn num_shards(&self) -> (r: u64)
        ensures
            r == self.num_shards_spec(),
    {
        self.num_shards
    }

    pub fn epoch_length(&self) -> (r: u64)
        ensures
            r == self.epoch_length_spec(),
    {
        self.epoch_length
    }

    /// Stores a block header; one already stored under its hash is kept.
    pub fn add_header(&mut self, h: BlockHeader)
        requires
            old(self).wf(),
        ensures
            final(self).wf(),
            final(self).headers_view() == (if old(self).headers_view().contains_key(h.hash@) {
                old(self).headers_view()
            } else {
                old(self).headers_view().insert(h.hash@, h)
            }),
            final(self).valsets() == old(self).valsets(),
            final(self).epoch_length_spec() == old(self).epoch_length_spec(),
            final(self).num_shards_spec() == old(self).num_shards_spec(),
            final(self).memo_epoch() == old(self).memo_epoch(),
            final(self).memo_next() == old(self).memo_next(),
            final(self).valset_of_epoch() == old(self).valset_of_epoch(),
            final(self).approvals_needed() == old(self).approvals_needed(),
            final(self).memo_start() == old(self).memo_start(),
    {
        self.headers.add(h);
    }

    /// The stored header of `hash`, if any.
    pub fn get_block_header(&self, hash: &CryptoHash) -> (r: Option<BlockHeader>)
        requires
            self.wf(),
        ensures
            r == (if self.headers_view().contains_key(hash@) {
                Some(self.headers_view()[hash@])
            } else {
                None::<BlockHeader>
            }),
    {
        self.headers.get(hash)
    }

    /// Whether a validator-set slot is registered for `epoch_id`.
    pub fn epoch_exists(&self, epoch_id: &EpochId) -> (r: bool)
        requires
            self.wf(),
        ensures
            r == self.valset_of_epoch().contains_key(epoch_id@),
    {
        self.hash_to_valset.contains(&epoch_id.0)
    }

    /// The slot of the validator sets that governs `epoch_id`.
    pub fn get_valset_for_epoch(&self, epoch_id: &EpochId) -> (r: Result<usize, EpochError>)
        requires
            self.wf(),
        ensures
            self.valset_of_epoch().contains_key(epoch_id@) ==> r is Ok && r.unwrap() == self.epoch_slot(epoch_id@),
            !self.valset_of_epoch().contains_key(epoch_id@) ==> fails_with(r, EpochErrorView::EpochOutOfBounds(epoch_id@)),
            r is Ok ==> r.unwrap() < self.valsets().len(),
    {
        match self.hash_to_valset.get(&epoch_id.0) {
            Some(v) => {
                let slots = self.validators_by_valset.len() as u64;
                Ok((*v % slots) as usize)
            },
            None => Err(EpochError::EpochOutOfBounds(*epoch_id)),
        }
    }

    /// The block producers of `epoch_id`, in order.
    pub fn get_epoch_block_producers_ordered(&self, epoch_id: &EpochId) -> (r: Result<Vec<ValidatorStake>, EpochError>)
        requires
            self.wf(),
        ensures
            self.valset_of_epoch().contains_key(epoch_id@) ==> r is Ok && stake_accounts(r.unwrap()@)
                == self.bp_accounts(self.epoch_slot(epoch_id@)),
            !self.valset_of_epoch().contains_key(epoch_id@) ==> fails_with(r, EpochErrorView::EpochOutOfBounds(epoch_id@)),
    {
        let i = match self.get_valset_for_epoch(epoch_id) {
            Ok(i) => i,
            Err(e) => return Err(e),
        };
        let bps = &self.validators_by_valset[i].block_producers;
        let mut out: Vec<ValidatorStake> = Vec::new();
        let mut j: usize = 0;
        while j < bps.len()
            invariant
                0 <= j <= bps@.len(),
                stake_accounts(out@) == stake_accounts(bps@).take(j as int),
            decreases bps@.len() - j,
        {
            let ghost o = out@;
            out.push(bps[j].duplicate());
            proof {
                assert(stake_accounts(out@) =~= stake_accounts(o).push(bps@[j as int].account_id@));
                assert(stake_accounts(bps@).take(j + 1) =~= stake_accounts(bps@).take(j as int).push(bps@[j as int].account_id@));
            }
            j = j + 1;
        }
        assert(stake_accounts(bps@).take(j as int) =~= stake_accounts(bps@));
        Ok(out)
    }

    /// The producer of the block at `height` in `epoch_id`: the block
    /// producers take turns by height.
    pub fn get_block_producer(&self, epoch_id: &EpochId, height: u64) -> (r: Result<AccountId, EpochError>)
        requires
            self.wf(),
        ensures
            self.valset_of_epoch().contains_key(epoch_id@) ==> r is Ok && r.unwrap()@ == self.bp_accounts(
                self.epoch_slot(epoch_id@),
            )[(height as int) % (self.bp_accounts(self.epoch_slot(epoch_id@)).len() as int)],
            !self.valset_of_epoch().contains_key(epoch_id@) ==> fails_with(r, EpochErrorView::EpochOutOfBounds(epoch_id@)),
    {
        let i = match self.get_valset_for_epoch(epoch_id) {
            Ok(i) => i,
            Err(e) => return Err(e),
        };
        proof { self.lemma_slot_facts(i as int); }
        let bps = &self.validators_by_valset[i].block_producers;
        let k = (height % (bps.len() as u64)) as usize;
        Ok(bps[k].account_id.duplicate())
    }

    /// The index of a shard of the layout: shards are numbered `0..num_shards`.
    fn shard_index(&self, shard_id: u64) -> (r: Result<usize, EpochError>)
        requires
            self.wf(),
        ensures
            shard_id < self.num_shards_spec() ==> r is Ok && r.unwrap() == shard_id,
            shard_id >= self.num_shards_spec() ==> fails_with(r, EpochErrorView::InvalidShardId(shard_id)),
    {
        if shard_id < self.num_shards {
            proof {
                self.lemma_slot_facts(0);
            }
            let l: usize = self.validators_by_valset[0].chunk_producers.len();
            assert(shard_id < l);
            Ok(shard_id as usize)
        } else {
            Err(EpochError::InvalidShardId(shard_id))
        }
    }

    /// The producer of the chunk of shard `shard_id` at `height` in
    /// `epoch_id`: the shard's chunk producers take turns, offset by the shard.
    pub fn get_chunk_producer(&self, epoch_id: &EpochId, shard_id: u64, height: u64) -> (r: Result<AccountId, EpochError>)
        requires
            self.wf(),
        ensures
            !self.valset_of_epoch().contains_key(epoch_id@) ==> fails_with(r, EpochErrorView::EpochOutOfBounds(epoch_id@)),
            self.valset_of_epoch().contains_key(epoch_id@) && shard_id >= self.num_shards_spec() ==> fails_with(
                r,
                EpochErrorView::InvalidShardId(shard_id),
            ),
            self.valset_of_epoch().contains_key(epoch_id@) && shard_id < self.num_shards_spec() ==> {
                let cps = self.cp_accounts(self.epoch_slot(epoch_id@), shard_id as int);
                r is Ok && r.unwrap()@ == cps[(shard_id + height + 1) % (cps.len() as int)]
            },
    {
        let i = match self.get_valset_for_epoch(epoch_id) {
            Ok(i) => i,
            Err(e) => return Err(e),
        };
        let s = match self.shard_index(shard_id) {
            Ok(s) => s,
            Err(e) => return Err(e),
        };
        proof { self.lemma_slot_facts(i as int); }
        let cps = &self.validators_by_valset[i].chunk_producers[s];
        let n = cps.len() as u128;
        let k = (((shard_id as u128) + (height as u128) + 1) % n) as usize;
        Ok(cps[k].account_id.duplicate())
    }

    /// The number of state parts.
    pub fn num_total_parts(&self) -> (r: usize)
        ensures
            r == total_parts(self.num_shards_spec()),
    {
        (12 + ((self.num_shards as u128) + 1) % 50) as usize
    }

    /// The number of state parts that carry data.
    pub fn num_data_parts(&self) -> (r: usize)
        ensures
            r == data_parts(self.num_shards_spec()),
    {
        let total = self.num_total_parts();
        if total <= 3 {
            1
        } else {
            (total - 1) / 3
        }
    }

    /// The block producer of `epoch_id` that owns state part `part_id`.
    pub fn get_part_owner(&self, epoch_id: &EpochId, part_id: u64) -> (r: Result<AccountId, EpochError>)
        requires
            self.wf(),
        ensures
            self.valset_of_epoch().contains_key(epoch_id@) ==> r is Ok && r.unwrap()@ == self.part_owner(epoch_id@, part_id),
            !self.valset_of_epoch().contains_key(epoch_id@) ==> fails_with(r, EpochErrorView::EpochOutOfBounds(epoch_id@)),
    {
        let i = match self.get_valset_for_epoch(epoch_id) {
            Ok(i) => i,
            Err(e) => return Err(e),
        };
        proof { self.lemma_slot_facts(i as int); }
        let bps = &self.validators_by_valset[i].block_producers;
        let idx = (part_id as u128) + (self.num_data_parts() as u128) + (self.num_total_parts() as u128);
        let k = (idx % (bps.len() as u128)) as usize;
        Ok(bps[k].account_id.duplicate())
    }

    /// The names of the chunk producers of shard `shard_id` in `epoch_id`.
    pub fn get_epoch_chunk_producers_for_shard(&self, epoch_id: &EpochId, shard_id: u64) -> (r: Result<Vec<AccountId>, EpochError>)
        requires
            self.wf(),
        ensures
            !self.valset_of_epoch().contains_key(epoch_id@) ==> fails_with(r, EpochErrorView::EpochOutOfBounds(epoch_id@)),
            self.valset_of_epoch().contains_key(epoch_id@) && shard_id >= self.num_shards_spec() ==> fails_with(
                r,
                EpochErrorView::InvalidShardId(shard_id),
            ),
            self.valset_of_epoch().contains_key(epoch_id@) && shard_id < self.num_shards_spec() ==> r is Ok
                && account_views(r.unwrap()@) == self.cp_accounts(self.epoch_slot(epoch_id@), shard_id as int),
    {
        let i = match self.get_valset_for_epoch(epoch_id) {
            Ok(i) => i,
            Err(e) => return Err(e),
        };
        let s = match self.shard_index(shard_id) {
            Ok(s) => s,
            Err(e) => return Err(e),
        };
        proof { self.lemma_slot_facts(i as int); }
        let cps = &self.validators_by_valset[i].chunk_producers[s];
        let mut out: Vec<AccountId> = Vec::new();
        let mut j: usize = 0;
        while j < cps.len()
            invariant
                0 <= j <= cps@.len(),
                account_views(out@) == stake_accounts(cps@).take(j as int),
            decreases cps@.len() - j,
        {
            let ghost o = out@;
            out.push(cps[j].account_id.duplicate());
            proof {
                assert(account_views(out@) =~= account_views(o).push(cps@[j as int].account_id@));
                assert(stake_accounts(cps@).take(j + 1) =~= stake_accounts(cps@).take(j as int).push(cps@[j as int].account_id@));
            }
            j = j + 1;
        }
        assert(stake_accounts(cps@).take(j as int) =~= stake_accounts(cps@));
        Ok(out)
    }
}

/// Whether some validator of `s` is named `a`.
fn names_validator(s: &Vec<ValidatorStake>, a: &AccountId) -> (r: bool)
    ensures
        r == stake_accounts(s@).contains(a@),
{
    let mut j: usize = 0;
    while j < s.len()
        invariant
            0 <= j <= s@.len(),
            forall|k: int| 0 <= k < j ==> s@[k].account_id@ != a@,
        decreases s@.len() - j,
    {
        if s[j].account_id.same_as(a) {
            assert(stake_accounts(s@)[j as int] == a@);
            return true;
        }
        j = j + 1;
    }
    assert(!stake_accounts(s@).contains(a@)) by {
        if stake_accounts(s@).contains(a@) {
            let k = choose|k: int| 0 <= k < s@.len() && stake_accounts(s@)[k] == a@;
            assert(s@[k].account_id@ == a@);
        }
    }
    false
}

/// The names of the block producers of every slot, slot after slot.
pub open spec fn flat_producers(vs: Seq<EpochValidatorSet>) -> Seq<Seq<u8>>
    decreases vs.len(),
{
    if vs.len() == 0 {
        Seq::empty()
    } else {
        flat_producers(vs.drop_last()) + stake_accounts(vs.last().block_producers@)
    }
}

impl MockEpochManager {
    /// The names of the block producers of every slot, slot after slot.
    pub fn all_block_producers(&self) -> (r: Vec<AccountId>)
        ensures
            account_views(r@) == flat_producers(self.valsets()),
    {
        let vs = &self.validators_by_valset;
        let mut out: Vec<AccountId> = Vec::new();
        let mut i: usize = 0;
        assert(account_views(out@) =~= Seq::<Seq<u8>>::empty());
        assert(vs@.take(0) =~= Seq::<EpochValidatorSet>::empty());
        while i < vs.len()
            invariant
                vs == &self.validators_by_valset,
                0 <= i <= vs@.len(),
                account_views(out@) == flat_producers(vs@.take(i as int)),
            decreases vs@.len() - i,
        {
            let bps = &vs[i].block_producers;
            let ghost base = account_views(out@);
            let mut j: usize = 0;
            while j < bps.len()
                invariant
                    0 <= j <= bps@.len(),
                    account_views(out@) == base + stake_accounts(bps@).take(j as int),
                decreases bps@.len() - j,
            {
                let ghost o = out@;
                out.push(bps[j].account_id.duplicate());
                proof {
                    assert(account_views(out@) =~= account_views(o).push(bps@[j as int].account_id@));
                    assert(stake_accounts(bps@).take(j + 1) =~= stake_accounts(bps@).take(j as int).push(bps@[j as int].account_id@));
                }
                j = j + 1;
            }
            proof {
                assert(stake_accounts(bps@).take(j as int) =~= stake_accounts(bps@));
                assert(vs@.take(i + 1).drop_last() =~= vs@.take(i as int));
            }
            i = i + 1;
        }
        assert(vs@.take(i as int) =~= vs@);
        out
    }
}

/// The owner of a state part is a function of the epoch's block producers,
/// the part counts and the part id alone: two indexes that agree on those
/// name the same owner.
pub proof fn lemma_part_owner_pure(
    a: &MockEpochManager,
    epoch_a: Seq<u8>,
    b: &MockEpochManager,
    epoch_b: Seq<u8>,
    part_id: u64,
)
    requires
        a.wf(),
        b.wf(),
        a.valset_of_epoch().contains_key(epoch_a),
        b.valset_of_epoch().contains_key(epoch_b),
        a.bp_accounts(a.epoch_slot(epoch_a)) == b.bp_accounts(b.epoch_slot(epoch_b)),
        total_parts(a.num_shards_spec()) == total_parts(b.num_shards_spec()),
    ensures
        a.part_owner(epoch_a, part_id) == b.part_owner(epoch_b, part_id),
{
}

/// `r` answers like `a` when `a` is a value, and fails like `a` when it is an error.
pub open spec fn same_outcome<T>(r: Result<T, EpochError>, a: Result<T, EpochErrorView>) -> bool {
    match a {
        Ok(x) => r is Ok && r.unwrap() == x,
        Err(v) => fails_with(r, v),
    }
}

/// The slot before `i` among `n`, the schedule being reused cyclically.
pub open spec fn slot_before(i: int, n: int) -> int {
    if i == 0 {
        n - 1
    } else {
        i - 1
    }
}

impl MockEpochManager {
    /// Whether `account_id` produces chunks of `shard_id` in slot `i`.
    fn produces_chunks(&self, i: usize, shard_id: u64, account_id: &AccountId) -> (r: Result<bool, EpochError>)
        requires
            self.wf(),
            i < self.valsets().len(),
        ensures
            shard_id >= self.num_shards_spec() ==> fails_with(r, EpochErrorView::InvalidShardId(shard_id)),
            shard_id < self.num_shards_spec() ==> r is Ok && r.unwrap() == self.cp_accounts(i as int, shard_id as int).contains(
                account_id@,
            ),
    {
        let s = match self.shard_index(shard_id) {
            Ok(s) => s,
            Err(e) => return Err(e),
        };
        proof { self.lemma_slot_facts(i as int); }
        Ok(names_validator(&self.validators_by_valset[i].chunk_producers[s], account_id))
    }

    /// Whether `account_id` produces chunks of `shard_id` in `epoch_id`.
    pub fn cares_about_shard_in_epoch(&self, epoch_id: &EpochId, account_id: &AccountId, shard_id: u64) -> (r: Result<bool, EpochError>)
        requires
            self.wf(),
        ensures
            !self.valset_of_epoch().contains_key(epoch_id@) ==> fails_with(r, EpochErrorView::EpochOutOfBounds(epoch_id@)),
            self.valset_of_epoch().contains_key(epoch_id@) && shard_id >= self.num_shards_spec() ==> fails_with(
                r,
                EpochErrorView::InvalidShardId(shard_id),
            ),
            self.valset_of_epoch().contains_key(epoch_id@) && shard_id < self.num_shards_spec() ==> r is Ok
                && r.unwrap() == self.cp_accounts(self.epoch_slot(epoch_id@), shard_id as int).contains(account_id@),
    {
        let i = match self.get_valset_for_epoch(epoch_id) {
            Ok(i) => i,
            Err(e) => return Err(e),
        };
        self.produces_chunks(i, shard_id, account_id)
    }

    /// Whether `account_id` produces chunks of `shard_id` in the slot `pick`
    /// makes of the slot that governs the block after `parent_hash`.
    fn cares_after(&mut self, parent_hash: &CryptoHash, account_id: &AccountId, shard_id: u64, pick: u8) -> (r: Result<bool, EpochError>)
        requires
            old(self).wf(),
        ensures
            old(self).index_effect(final(self), *parent_hash),
            match old(self).answer_after(*parent_hash) {
                Err(v) => fails_with(r, v),
                Ok((_, i, _)) => {
                    let n = old(self).valsets().len() as int;
                    let j = if pick == 0 {
                        i
                    } else if pick == 1 {
                        (i + 1) % n
                    } else {
                        slot_before(i, n)
                    };
                    &&& shard_id >= old(self).num_shards_spec() ==> fails_with(r, EpochErrorView::InvalidShardId(shard_id))
                    &&& shard_id < old(self).num_shards_spec() ==> r is Ok && r.unwrap() == old(self).cp_accounts(j, shard_id as int).contains(account_id@)
                },
            },
    {
        let (_, i, _) = match self.get_epoch_and_valset(*parent_hash) {
            Ok(x) => x,
            Err(e) => return Err(e),
        };
        let n = self.validators_by_valset.len();
        let j = if pick == 0 {
            i
        } else if pick == 1 {
            (i + 1) % n
        } else {
            if i == 0 {
                n - 1
            } else {
                i - 1
            }
        };
        self.produces_chunks(j, shard_id, account_id)
    }

    /// Whether `account_id` produces chunks of `shard_id` in the epoch of the
    /// block after `parent_hash`.
    pub fn cares_about_shard_from_prev_block(&mut self, parent_hash: &CryptoHash, account_id: &AccountId, shard_id: u64) -> (r: Result<bool, EpochError>)
        requires
            old(self).wf(),
        ensures
            old(self).index_effect(final(self), *parent_hash),
            match old(self).answer_after(*parent_hash) {
                Err(v) => fails_with(r, v),
                Ok((_, i, _)) => {
                    &&& shard_id >= old(self).num_shards_spec() ==> fails_with(r, EpochErrorView::InvalidShardId(shard_id))
                    &&& shard_id < old(self).num_shards_spec() ==> r is Ok && r.unwrap() == old(self).cp_accounts(i, shard_id as int).contains(account_id@)
                },
            },
    {
        self.cares_after(parent_hash, account_id, shard_id, 0)
    }

    /// As `cares_about_shard_from_prev_block`, for the slot after it.
    pub fn cares_about_shard_next_epoch_from_prev_block(&mut self, parent_hash: &CryptoHash, account_id: &AccountId, shard_id: u64) -> (r: Result<bool, EpochError>)
        requires
            old(self).wf(),
        ensures
            old(self).index_effect(final(self), *parent_hash),
            match old(self).answer_after(*parent_hash) {
                Err(v) => fails_with(r, v),
                Ok((_, i, _)) => {
                    let j = (i + 1) % (old(self).valsets().len() as int);
                    &&& shard_id >= old(self).num_shards_spec() ==> fails_with(r, EpochErrorView::InvalidShardId(shard_id))
                    &&& shard_id < old(self).num_shards_spec() ==> r is Ok && r.unwrap() == old(self).cp_accounts(j, shard_id as int).contains(account_id@)
                },
            },
    {
        self.cares_after(parent_hash, account_id, shard_id, 1)
    }

    /// As `cares_about_shard_from_prev_block`, for the slot before it.
    pub fn cared_about_shard_prev_epoch_from_prev_block(&mut self, parent_hash: &CryptoHash, account_id: &AccountId, shard_id: u64) -> (r: Result<bool, EpochError>)
        requires
            old(self).wf(),
        ensures
            old(self).index_effect(final(self), *parent_hash),
            match old(self).answer_after(*parent_hash) {
                Err(v) => fails_with(r, v),
                Ok((_, i, _)) => {
                    let j = slot_before(i, old(self).valsets().len() as int);
                    &&& shard_id >= old(self).num_shards_spec() ==> fails_with(r, EpochErrorView::InvalidShardId(shard_id))
                    &&& shard_id < old(self).num_shards_spec() ==> r is Ok && r.unwrap() == old(self).cp_accounts(j, shard_id as int).contains(account_id@)
                },
            },
    {
        self.cares_after(parent_hash, account_id, shard_id, 2)
    }

    /// The epoch of the block after `parent_hash`.
    pub fn get_epoch_id_from_prev_block(&mut self, parent_hash: &CryptoHash) -> (r: Result<EpochId, EpochError>)
        requires
            old(self).wf(),
        ensures
            old(self).index_effect(final(self), *parent_hash),
            match old(self).answer_after(*parent_hash) {
                Err(v) => fails_with(r, v),
                Ok((e, _, _)) => r is Ok && r.unwrap()@ == e,
            },
    {
        match self.get_epoch_and_valset(*parent_hash) {
            Ok((e, _, _)) => Ok(e),
            Err(e) => Err(e),
        }
    }

    /// The next epoch of the block after `parent_hash`.
    pub fn get_next_epoch_id_from_prev_block(&mut self, parent_hash: &CryptoHash) -> (r: Result<EpochId, EpochError>)
        requires
            old(self).wf(),
        ensures
            old(self).index_effect(final(self), *parent_hash),
            match old(self).answer_after(*parent_hash) {
                Err(v) => fails_with(r, v),
                Ok((_, _, n)) => r is Ok && r.unwrap()@ == n,
            },
    {
        match self.get_epoch_and_valset(*parent_hash) {
            Ok((_, _, n)) => Ok(n),
            Err(e) => Err(e),
        }
    }

    /// The epoch that indexing `block_hash` as a predecessor derives.
    pub fn get_epoch_id(&mut self, block_hash: &CryptoHash) -> (r: Result<EpochId, EpochError>)
        requires
            old(self).wf(),
        ensures
            old(self).index_effect(final(self), *block_hash),
            match old(self).answer_after(*block_hash) {
                Err(v) => fails_with(r, v),
                Ok((e, _, _)) => r is Ok && r.unwrap()@ == e,
            },
    {
        self.get_epoch_id_from_prev_block(block_hash)
    }

    /// The next epoch that indexing `block_hash` as a predecessor derives.
    pub fn get_next_epoch_id(&mut self, block_hash: &CryptoHash) -> (r: Result<EpochId, EpochError>)
        requires
            old(self).wf(),
        ensures
            old(self).index_effect(final(self), *block_hash),
            match old(self).answer_after(*block_hash) {
                Err(v) => fails_with(r, v),
                Ok((_, _, n)) => r is Ok && r.unwrap()@ == n,
            },
    {
        self.get_next_epoch_id_from_prev_block(block_hash)
    }

    /// The height of the first block of the epoch of `block_hash`'s
    /// successor, or zero where that block's header is not stored.
    pub fn get_epoch_start_height(&mut self, block_hash: &CryptoHash) -> (r: Result<u64, EpochError>)
        requires
            old(self).wf(),
        ensures
            old(self).index_effect(final(self), *block_hash),
            match old(self).answer_after(*block_hash) {
                Err(v) => fails_with(r, v),
                Ok((e, _, _)) => r is Ok && r.unwrap() == if old(self).headers_view().contains_key(e) {
                    old(self).headers_view()[e].height
                } else {
                    0
                },
            },
    {
        let e = match self.get_epoch_id(block_hash) {
            Ok(e) => e,
            Err(e) => return Err(e),
        };
        match self.headers.get(&e.0) {
            Some(h) => Ok(h.height),
            None => Ok(0),
        }
    }

    /// Orders two epochs by their slots; an epoch equals itself.
    pub fn compare_epoch_id(&self, epoch_id: &EpochId, other_epoch_id: &EpochId) -> (r: Result<core::cmp::Ordering, EpochError>)
        requires
            self.wf(),
        ensures
            epoch_id@ == other_epoch_id@ ==> r == Ok::<core::cmp::Ordering, EpochError>(core::cmp::Ordering::Equal),
            epoch_id@ != other_epoch_id@ && self.valset_of_epoch().contains_key(epoch_id@)
                && self.valset_of_epoch().contains_key(other_epoch_id@) ==> {
                let a = self.epoch_slot(epoch_id@);
                let b = self.epoch_slot(other_epoch_id@);
                r == Ok::<core::cmp::Ordering, EpochError>(
                    if a < b {
                        core::cmp::Ordering::Less
                    } else if a == b {
                        core::cmp::Ordering::Equal
                    } else {
                        core::cmp::Ordering::Greater
                    },
                )
            },
            epoch_id@ != other_epoch_id@ && !(self.valset_of_epoch().contains_key(epoch_id@)
                && self.valset_of_epoch().contains_key(other_epoch_id@)) ==> fails_with(
                r,
                EpochErrorView::EpochOutOfBounds(epoch_id@),
            ),
    {
        if epoch_id.0 == other_epoch_id.0 {
            return Ok(core::cmp::Ordering::Equal);
        }
        match (self.get_valset_for_epoch(epoch_id), self.get_valset_for_epoch(other_epoch_id)) {
            (Ok(a), Ok(b)) => {
                if a < b {
                    Ok(core::cmp::Ordering::Less)
                } else if a == b {
                    Ok(core::cmp::Ordering::Equal)
                } else {
                    Ok(core::cmp::Ordering::Greater)
                }
            },
            _ => Err(EpochError::EpochOutOfBounds(*epoch_id)),
        }
    }

    /// The shards of the layout, in order.
    pub fn shard_ids(&self) -> (r: Vec<u64>)
        ensures
            r@.len() == self.num_shards_spec(),
            forall|i: int| 0 <= i < r@.len() ==> r@[i] == i,
    {
        let mut out: Vec<u64> = Vec::new();
        let mut s: u64 = 0;
        while s < self.num_shards
            invariant
                s <= self.num_shards,
                out@.len() == s,
                forall|i: int| 0 <= i < s ==> out@[i] == i,
            decreases self.num_shards - s,
        {
            out.push(s);
            s = s + 1;
        }
        out
    }

    /// The validator of `epoch_id` named `account_id`: a block producer
    /// first, else a chunk producer of the lowest shard that has it.
    pub fn get_validator_by_account_id(&self, epoch_id: &EpochId, account_id: &AccountId) -> (r: Result<ValidatorStake, EpochError>)
        requires
            self.wf(),
        ensures
            !self.valset_of_epoch().contains_key(epoch_id@) ==> fails_with(r, EpochErrorView::EpochOutOfBounds(epoch_id@)),
            self.valset_of_epoch().contains_key(epoch_id@) ==> {
                let i = self.epoch_slot(epoch_id@);
                let found = self.bp_accounts(i).contains(account_id@) || exists|s: int|
                    0 <= s < self.num_shards_spec() && #[trigger] self.cp_accounts(i, s).contains(account_id@);
                &&& found ==> r is Ok && r.unwrap().account_id@ == account_id@ && r.unwrap().stake == VALIDATOR_STAKE
                &&& !found ==> fails_with(r, EpochErrorView::NotAValidator(account_id@, epoch_id@))
            },
    {
        let i = match self.get_valset_for_epoch(epoch_id) {
            Ok(i) => i,
            Err(e) => return Err(e),
        };
        proof { self.lemma_slot_facts(i as int); }
        let set = &self.validators_by_valset[i];
        let mut j: usize = 0;
        while j < set.block_producers.len()
            invariant
                self.wf(),
                self.valset_of_epoch().contains_key(epoch_id@),
                i == self.epoch_slot(epoch_id@),
                i < self.valsets().len(),
                set == &self.validators_by_valset@[i as int],
                0 <= j <= set.block_producers@.len(),
                forall|k: int| 0 <= k < j ==> set.block_producers@[k].account_id@ != account_id@,
            decreases set.block_producers@.len() - j,
        {
            if set.block_producers[j].account_id.same_as(account_id) {
                assert(stake_accounts(set.block_producers@)[j as int] == account_id@);
                return Ok(set.block_producers[j].duplicate());
            }
            j = j + 1;
        }
        assert(!stake_accounts(set.block_producers@).contains(account_id@)) by {
            if stake_accounts(set.block_producers@).contains(account_id@) {
                let k = choose|k: int| 0 <= k < set.block_producers@.len() && stake_accounts(set.block_producers@)[k] == account_id@;
                assert(set.block_producers@[k].account_id@ == account_id@);
            }
        }
        let mut s: usize = 0;
        while s < set.chunk_producers.len()
            invariant
                self.wf(),
                self.valset_of_epoch().contains_key(epoch_id@),
                i == self.epoch_slot(epoch_id@),
                i < self.valsets().len(),
                set == &self.validators_by_valset@[i as int],
                !stake_accounts(set.block_producers@).contains(account_id@),
                0 <= s <= set.chunk_producers@.len(),
                set.chunk_producers@.len() == self.num_shards_spec(),
                forall|t: int| 0 <= t < s ==> !(#[trigger] stake_accounts(set.chunk_producers@[t]@)).contains(account_id@),
            decreases set.chunk_producers@.len() - s,
        {
            let row = &set.chunk_producers[s];
            let mut j: usize = 0;
            while j < row.len()
                invariant
                    self.wf(),
                    self.valset_of_epoch().contains_key(epoch_id@),
                    i == self.epoch_slot(epoch_id@),
                    i < self.valsets().len(),
                    set == &self.validators_by_valset@[i as int],
                    !stake_accounts(set.block_producers@).contains(account_id@),
                    0 <= s < set.chunk_producers@.len(),
                    set.chunk_producers@.len() == self.num_shards_spec(),
                    row == &set.chunk_producers@[s as int],
                    0 <= j <= row@.len(),
                    forall|k: int| 0 <= k < j ==> row@[k].account_id@ != account_id@,
                decreases row@.len() - j,
            {
                if row[j].account_id.same_as(account_id) {
                    assert(stake_accounts(row@)[j as int] == account_id@);
                    assert(self.cp_accounts(i as int, s as int).contains(account_id@));
                    return Ok(row[j].duplicate());
                }
                j = j + 1;
            }
            assert(!stake_accounts(row@).contains(account_id@)) by {
                if stake_accounts(row@).contains(account_id@) {
                    let k = choose|k: int| 0 <= k < row@.len() && stake_accounts(row@)[k] == account_id@;
                    assert(row@[k].account_id@ == account_id@);
                }
            }
            s = s + 1;
        }
        assert(!exists|t: int| 0 <= t < self.num_shards_spec() && #[trigger] self.cp_accounts(i as int, t).contains(account_id@));
        Err(EpochError::NotAValidator(account_id.duplicate(), *epoch_id))
    }
}

impl MockEpochManager {
    /// Whether the block after `parent_hash` starts an epoch: always after
    /// the genesis sentinel, and otherwise when indexing `parent_hash` and
    /// then its predecessor derive different epochs.
    pub fn is_next_block_epoch_start(&mut self, parent_hash: &CryptoHash) -> (r: Result<bool, EpochError>)
        requires
            old(self).wf(),
        ensures
            final(self).wf(),
            final(self).same_schedule(old(self)),
            parent_hash@ == zero_bytes() ==> r == Ok::<bool, EpochError>(true) && final(self).unchanged(old(self)),
            parent_hash@ != zero_bytes() && !old(self).headers_view().contains_key(parent_hash@) ==> fails_with(
                r,
                EpochErrorView::MissingBlock(parent_hash@),
            ) && final(self).unchanged(old(self)),
            parent_hash@ != zero_bytes() && old(self).headers_view().contains_key(parent_hash@) ==> {
                let pp = old(self).headers_view()[parent_hash@].prev_hash;
                match old(self).answer_after(*parent_hash) {
                    Err(v) => fails_with(r, v) && old(self).index_effect(final(self), *parent_hash),
                    Ok((e1, _, _)) => exists|mid: MockEpochManager|
                        {
                            &&& old(self).index_effect(&mid, *parent_hash)
                            &&& #[trigger] mid.index_effect(final(self), pp)
                            &&& match mid.answer_after(pp) {
                                Err(v) => fails_with(r, v),
                                Ok((e2, _, _)) => r == Ok::<bool, EpochError>(e1 != e2),
                            }
                        },
                }
            },
    {
        if parent_hash.is_zero() {
            return Ok(true);
        }
        let h = match self.headers.get(parent_hash) {
            Some(h) => h,
            None => return Err(EpochError::MissingBlock(*parent_hash)),
        };
        let e1 = match self.get_epoch_and_valset(*parent_hash) {
            Ok((e, _, _)) => e,
            Err(e) => return Err(e),
        };
        let ghost mid = *self;
        let e2 = match self.get_epoch_and_valset(h.prev_hash) {
            Ok((e, _, _)) => e,
            Err(e) => return Err(e),
        };
        Ok(!(e1.0 == e2.0))
    }

    /// Who may approve the block after `parent_hash`: the block producers of
    /// its slot with their stake in this epoch, followed, where indexing
    /// found that next-epoch approvals are due, by the block producers of the
    /// next epoch's slot that are not among them, with their stake in the next
    /// epoch.
    pub fn get_epoch_block_approvers_ordered(&mut self, parent_hash: &CryptoHash) -> (r: Result<Vec<ApprovalStake>, EpochError>)
        requires
            old(self).wf(),
        ensures
            old(self).index_effect(final(self), *parent_hash),
            match old(self).answer_after(*parent_hash) {
                Err(v) => fails_with(r, v),
                Ok((_, i, nx)) => {
                    let cur = final(self).valsets()[i].block_producers@;
                    let mine = as_approvals(cur, false);
                    if !final(self).approvals_needed().contains_key(parent_hash@) {
                        fails_with(r, EpochErrorView::AncestorNotIndexed(parent_hash@))
                    } else if !final(self).approvals_needed()[parent_hash@] {
                        r is Ok && approval_views(r.unwrap()@) == mine
                    } else if !final(self).valset_of_epoch().contains_key(nx) {
                        fails_with(r, EpochErrorView::EpochOutOfBounds(nx))
                    } else {
                        let next = final(self).valsets()[final(self).epoch_slot(nx)].block_producers@;
                        r is Ok && approval_views(r.unwrap()@) == mine + as_approvals(next, true).filter(
                            |a: (Seq<u8>, u128, u128)| !stake_accounts(cur).contains(a.0),
                        )
                    }
                },
            },
    {
        let (_, i, next) = match self.get_epoch_and_valset(*parent_hash) {
            Ok(x) => x,
            Err(e) => return Err(e),
        };
        proof { self.lemma_slot_facts(i as int); }
        let cur = &self.validators_by_valset[i].block_producers;
        let mut out: Vec<ApprovalStake> = Vec::new();
        let mut j: usize = 0;
        while j < cur.len()
            invariant
                0 <= j <= cur@.len(),
                approval_views(out@) == as_approvals(cur@, false).take(j as int),
            decreases cur@.len() - j,
        {
            let ghost o = out@;
            out.push(ApprovalStake { account_id: cur[j].account_id.duplicate(), stake_this_epoch: cur[j].stake, stake_next_epoch: 0 });
            proof {
                assert(approval_views(out@) =~= approval_views(o).push(as_approvals(cur@, false)[j as int]));
                assert(as_approvals(cur@, false).take(j + 1) =~= as_approvals(cur@, false).take(j as int).push(as_approvals(cur@, false)[j as int]));
            }
            j = j + 1;
        }
        assert(as_approvals(cur@, false).take(j as int) =~= as_approvals(cur@, false));
        let need = match self.hash_to_next_epoch_approvals_req.get(parent_hash) {
            Some(b) => *b,
            None => return Err(EpochError::AncestorNotIndexed(*parent_hash)),
        };
        if !need {
            return Ok(out);
        }
        let k = match self.get_valset_for_epoch(&next) {
            Ok(k) => k,
            Err(e) => return Err(e),
        };
        let nbp = &self.validators_by_valset[k].block_producers;
        let ghost mine = approval_views(out@);
        let ghost pred = |a: (Seq<u8>, u128, u128)| !stake_accounts(cur@).contains(a.0);
        let ghost theirs = as_approvals(nbp@, true);
        let mut j: usize = 0;
        assert(theirs.take(0) =~= Seq::<(Seq<u8>, u128, u128)>::empty());
        proof {
            reveal(Seq::filter);
        }
        assert(mine + theirs.take(0).filter(pred) =~= mine);
        while j < nbp.len()
            invariant
                0 <= j <= nbp@.len(),
                theirs == as_approvals(nbp@, true),
                approval_views(out@) == mine + theirs.take(j as int).filter(pred),
                pred == (|a: (Seq<u8>, u128, u128)| !stake_accounts(cur@).contains(a.0)),
            decreases nbp@.len() - j,
        {
            let ghost o = out@;
            proof {
                assert(theirs.take(j + 1).drop_last() =~= theirs.take(j as int));
                assert(theirs.take(j + 1).last() == theirs[j as int]);
            }
            let known = names_validator(cur, &nbp[j].account_id);
            proof {
                assert(theirs[j as int].0 == nbp@[j as int].account_id@);
                assert(pred(theirs[j as int]) == !known);
                assert(theirs.take(j + 1) =~= theirs.take(j as int).push(theirs[j as int]));
                theirs.take(j as int).lemma_filter_push(theirs[j as int], pred);
            }
            if !known {
                out.push(ApprovalStake { account_id: nbp[j].account_id.duplicate(), stake_this_epoch: 0, stake_next_epoch: nbp[j].stake });
                proof {
                    assert(approval_views(out@) =~= approval_views(o).push(theirs[j as int]));
                    assert(theirs.take(j + 1).filter(pred) == theirs.take(j as int).filter(pred).push(theirs[j as int]));
                    assert(approval_views(out@) =~= mine + theirs.take(j + 1).filter(pred));
                }
            } else {
                proof {
                    assert(theirs.take(j + 1).filter(pred) == theirs.take(j as int).filter(pred));
                }
            }
            j = j + 1;
        }
        assert(theirs.take(j as int) =~= theirs);
        Ok(out)
    }
}

impl MockEpochManager {
    /// An index whose schedule has one slot with the single validator `test`,
    /// on one shard.
    pub fn new(epoch_length: u64) -> (r: MockEpochManager)
        ensures
            r.wf(),
            r.epoch_length_spec() == epoch_length,
            r.num_shards_spec() == 1,
            r.valsets().len() == 1,
            r.bp_accounts(0) == seq!["test".spec_bytes()],
            standard_stakes(r.valsets()[0].block_producers@),
            r.headers_view() == Map::<Seq<u8>, BlockHeader>::empty(),
            r.memo_epoch() == Map::<Seq<u8>, CryptoHash>::empty(),
            r.approvals_needed() == Map::<Seq<u8>, bool>::empty(),
            r.memo_next().dom() == set![zero_bytes()],
            r.memo_next()[zero_bytes()]@ == zero_bytes(),
            r.valset_of_epoch() == map![zero_bytes() => 0u64],
            r.memo_start() == map![zero_bytes() => 0u128],
    {
        let test = AccountId::new("test");
        let mut row: Vec<AccountId> = Vec::new();
        row.push(test);
        let mut rows: Vec<Vec<AccountId>> = Vec::new();
        rows.push(row);
        let vs = ValidatorSchedule::new().block_producers_per_epoch(rows);
        proof {
            let bps = vs.block_producers@;
            assert(vs.slot_len(0) == 1);
            assert(shard_offset(1, 1, 1, 0) == 0);
            assert(flatten_nested(vs.chunk_only_producers@) =~= Seq::<Seq<u8>>::empty());
            assert(vs.schedule_error().is_none());
        }
        let r = MockEpochManager::new_with_validators(vs, epoch_length);
        let m = r.unwrap();
        assert(m.bp_accounts(0) =~= seq!["test".spec_bytes()]);
        m
    }
}

/// Some entry of `s` is the epoch named `k`.
pub open spec fn lists_epoch(s: Seq<EpochId>, k: Seq<u8>) -> bool {
    exists|i: int| 0 <= i < s.len() && (#[trigger] s[i])@ == k
}

/// Some entry of `s` is the hash `k`.
pub open spec fn lists_hash(s: Seq<CryptoHash>, k: Seq<u8>) -> bool {
    exists|i: int| 0 <= i < s.len() && (#[trigger] s[i])@ == k
}

pub open spec fn distinct_epochs(s: Seq<EpochId>) -> bool {
    forall|i: int, j: int| 0 <= i < j < s.len() ==> (#[trigger] s[i])@ != (#[trigger] s[j])@
}

/// Whether some entry of `out` is the epoch named by `h`.
fn holds_hash(out: &Vec<EpochId>, h: &CryptoHash) -> (r: bool)
    ensures
        r == lists_epoch(out@, h@),
{
    let mut i: usize = 0;
    while i < out.len()
        invariant
            0 <= i <= out@.len(),
            forall|j: int| 0 <= j < i ==> (#[trigger] out@[j])@ != h@,
        decreases out@.len() - i,
    {
        if out[i].0 == *h {
            return true;
        }
        i = i + 1;
    }
    false
}

/// Appends to `out` each hash of `keys` that `out` does not list yet.
fn add_unique(out: &mut Vec<EpochId>, keys: &Vec<CryptoHash>)
    requires
        distinct_epochs(old(out)@),
    ensures
        distinct_epochs(final(out)@),
        forall|k: Seq<u8>| #[trigger] lists_epoch(final(out)@, k) == (lists_epoch(old(out)@, k) || lists_hash(keys@, k)),
{
    let ghost o = old(out)@;
    let mut j: usize = 0;
    while j < keys.len()
        invariant
            0 <= j <= keys@.len(),
            o == old(out)@,
            distinct_epochs(out@),
            forall|k: Seq<u8>| #[trigger] lists_epoch(out@, k) == (lists_epoch(o, k) || lists_hash(keys@.take(j as int), k)),
        decreases keys@.len() - j,
    {
        let k = keys[j];
        let ghost before = out@;
        let ghost pre = keys@.take(j as int);
        let ghost post = keys@.take(j + 1);
        assert(post =~= pre.push(k));
        let seen = holds_hash(out, &k);
        if !seen {
            out.push(EpochId(k));
            proof {
                assert forall|x: Seq<u8>| #[trigger] lists_epoch(out@, x) == (lists_epoch(o, x) || lists_hash(post, x)) by {
                    if lists_epoch(out@, x) {
                        let i = choose|i: int| 0 <= i < out@.len() && (#[trigger] out@[i])@ == x;
                        if i < before.len() {
                            assert(before[i]@ == x);
                            assert(lists_epoch(before, x));
                            if lists_hash(pre, x) {
                                let t = choose|t: int| 0 <= t < pre.len() && (#[trigger] pre[t])@ == x;
                                assert(post[t]@ == x);
                            }
                        } else {
                            assert(post[j as int]@ == x);
                        }
                    }
                    if lists_hash(post, x) {
                        let i = choose|i: int| 0 <= i < post.len() && (#[trigger] post[i])@ == x;
                        if i == j {
                            assert(out@[before.len() as int]@ == x);
                        } else {
                            assert(pre[i]@ == x);
                            assert(lists_epoch(before, x));
                            let t = choose|t: int| 0 <= t < before.len() && (#[trigger] before[t])@ == x;
                            assert(out@[t]@ == x);
                        }
                    }
                    if lists_epoch(o, x) {
                        assert(lists_epoch(before, x));
                        let t = choose|t: int| 0 <= t < before.len() && (#[trigger] before[t])@ == x;
                        assert(out@[t]@ == x);
                    }
                }
            }
        } else {
            proof {
                assert forall|x: Seq<u8>| #[trigger] lists_epoch(out@, x) == (lists_epoch(o, x) || lists_hash(post, x)) by {
                    if lists_hash(post, x) {
                        let i = choose|i: int| 0 <= i < post.len() && (#[trigger] post[i])@ == x;
                        if i != j {
                            assert(pre[i]@ == x);
                        }
                    }
                    if lists_hash(pre, x) {
                        let t = choose|t: int| 0 <= t < pre.len() && (#[trigger] pre[t])@ == x;
                        assert(post[t]@ == x);
                    }
                }
            }
        }
        j = j + 1;
    }
    assert(keys@.take(j as int) =~= keys@);
}

impl MockEpochManager {
    /// Every hash that indexing has recorded, each once, as an epoch
    /// candidate: the indexed blocks and the genesis sentinel. The order is
    /// unspecified.
    pub fn possible_epochs_of_height_around_tip(&self) -> (r: Vec<EpochId>)
        requires
            self.wf(),
        ensures
            forall|k: Seq<u8>| #[trigger] lists_epoch(r@, k) == (self.memo_epoch().contains_key(k) || self.memo_next().contains_key(k)),
            distinct_epochs(r@),
    {
        let mut out: Vec<EpochId> = Vec::new();
        let a = self.hash_to_epoch.keys();
        add_unique(&mut out, &a);
        let b = self.hash_to_next_epoch.keys();
        add_unique(&mut out, &b);
        assert forall|k: Seq<u8>| #[trigger] lists_epoch(out@, k) == (self.memo_epoch().contains_key(k) || self.memo_next().contains_key(k)) by {
            assert(self.memo_epoch().contains_key(k) == lists_hash(a@, k));
            assert(self.memo_next().contains_key(k) == lists_hash(b@, k));
        }
        out
    }
}

impl MockEpochManager {
    /// `h` is the genesis sentinel or has been indexed, so asking about the
    /// block after it changes nothing.
    pub open spec fn settled(&self, h: CryptoHash) -> bool {
        h@ == zero_bytes() || self.memo_epoch().contains_key(h@)
    }

    /// What `is_next_block_epoch_start` answers for `p` when `p` and its
    /// predecessor are settled.
    pub open spec fn starts_epoch(&self, p: CryptoHash) -> Result<bool, EpochErrorView> {
        if p@ == zero_bytes() {
            Ok(true)
        } else if !self.headers_view().contains_key(p@) {
            Err(EpochErrorView::MissingBlock(p@))
        } else {
            match self.answer_after(p) {
                Err(v) => Err(v),
                Ok(a) => match self.answer_after(self.headers_view()[p@].prev_hash) {
                    Err(v) => Err(v),
                    Ok(b) => Ok(a.0 != b.0),
                },
            }
        }
    }

    /// Walking back from `c` through predecessors, the epoch of the block
    /// after the first predecessor at which an epoch starts.
    pub open spec fn walk_back(&self, c: CryptoHash, fuel: nat) -> Result<Seq<u8>, EpochErrorView>
        decreases fuel,
    {
        if fuel == 0 {
            Err(EpochErrorView::AncestryTooLong(c@))
        } else if !self.headers_view().contains_key(c@) {
            Err(EpochErrorView::MissingBlock(c@))
        } else {
            let p = self.headers_view()[c@].prev_hash;
            match self.starts_epoch(p) {
                Err(v) => Err(v),
                Ok(true) => match self.answer_after(p) {
                    Err(v) => Err(v),
                    Ok(a) => Ok(a.0),
                },
                Ok(false) => self.walk_back(p, (fuel - 1) as nat),
            }
        }
    }

    /// Every hash that the walk from `c` asks about is settled.
    pub open spec fn walk_settled(&self, c: CryptoHash, fuel: nat) -> bool
        decreases fuel,
    {
        if fuel == 0 || !self.headers_view().contains_key(c@) {
            true
        } else {
            let p = self.headers_view()[c@].prev_hash;
            &&& self.settled(p)
            &&& (p@ != zero_bytes() && self.headers_view().contains_key(p@)) ==> self.settled(
                self.headers_view()[p@].prev_hash,
            )
            &&& self.starts_epoch(p) == Ok::<bool, EpochErrorView>(false) ==> self.walk_settled(p, (fuel - 1) as nat)
        }
    }

    /// The epoch before the one of the block after `prev_block_hash`: walking
    /// back through predecessors to the first one after which an epoch
    /// starts, the epoch of the block after it. Where every block the walk
    /// asks about is indexed, nothing changes and the answer is the walk's.
    pub fn get_prev_epoch_id_from_prev_block(&mut self, prev_block_hash: &CryptoHash) -> (r: Result<EpochId, EpochError>)
        requires
            old(self).wf(),
        ensures
            final(self).wf(),
            final(self).same_schedule(old(self)),
            old(self).walk_settled(*prev_block_hash, u64::MAX as nat) ==> {
                &&& final(self).unchanged(old(self))
                &&& match old(self).walk_back(*prev_block_hash, u64::MAX as nat) {
                    Err(v) => fails_with(r, v),
                    Ok(e) => r is Ok && r.unwrap()@ == e,
                }
            },
    {
        let ghost s0 = *self;
        let mut candidate = *prev_block_hash;
        let mut fuel: u64 = u64::MAX;
        while fuel > 0
            invariant
                self.wf(),
                self.same_schedule(&s0),
                s0.wf(),
                s0 == *old(self),
                s0.walk_settled(*prev_block_hash, u64::MAX as nat) ==> {
                    &&& self.unchanged(&s0)
                    &&& s0.walk_settled(candidate, fuel as nat)
                    &&& s0.walk_back(candidate, fuel as nat) == s0.walk_back(*prev_block_hash, u64::MAX as nat)
                },
            decreases fuel,
        {
            let header = match self.headers.get(&candidate) {
                Some(h) => h,
                None => return Err(EpochError::MissingBlock(candidate)),
            };
            let p = header.prev_hash;
            let starts = match self.is_next_block_epoch_start(&p) {
                Ok(b) => b,
                Err(e) => return Err(e),
            };
            if starts {
                return match self.get_epoch_and_valset(p) {
                    Ok((e, _, _)) => Ok(e),
                    Err(e) => Err(e),
                };
            }
            candidate = p;
            fuel = fuel - 1;
        }
        Err(EpochError::AncestryTooLong(candidate))
    }
}

impl MockEpochManager {
    /// The unreduced slot counter of the epoch memoized for `h`.
    pub open spec fn raw_valset(&self, h: Seq<u8>) -> int {
        self.valset_of_epoch()[self.memo_epoch()[h]@] as int
    }
}

/// Indexing a block whose predecessor is indexed, in a real call: the new
/// block's unreduced slot counter is its predecessor's, plus one exactly
/// when an epoch boundary is detected; the predecessor's counter is kept.
pub proof fn lemma_valset_step(before: &MockEpochManager, after: &MockEpochManager, prev_hash: CryptoHash)
    requires
        before.wf(),
        prev_hash@ != zero_bytes(),
        !before.memo_epoch().contains_key(prev_hash@),
        before.index_step(prev_hash) is Ok,
        before.index_effect(after, prev_hash),
        before.headers_view()[prev_hash@].prev_hash@ != zero_bytes(),
    ensures
        ({
            let pp = before.headers_view()[prev_hash@].prev_hash@;
            let d = before.index_step(prev_hash)->Ok_0;
            &&& before.memo_epoch().contains_key(pp)
            &&& after.memo_epoch().contains_key(prev_hash@)
            &&& after.raw_valset(pp) == before.raw_valset(pp)
            &&& after.raw_valset(prev_hash@) == before.raw_valset(pp) + if d.boundary {
                1int
            } else {
                0int
            }
            &&& before.raw_valset(pp) <= after.raw_valset(prev_hash@)
        }),
{
    let pp = before.headers_view()[prev_hash@].prev_hash@;
    let d = before.index_step(prev_hash)->Ok_0;
    before.lemma_indexed_facts(pp);
    before.lemma_memo_facts(pp);
    assert(before.memo(pp).next_epoch@ == zero_bytes());
    assert(d.next_epoch@ == zero_bytes());
    assert(d.epoch@ != zero_bytes());
    let e = before.memo_epoch()[pp]@;
    assert(after.memo_epoch()[pp] == before.memo_epoch()[pp]);
    assert(after.valset_of_epoch()[e] == before.valset_of_epoch()[e]);
    assert(after.memo_epoch()[prev_hash@] == d.epoch);
    assert(after.valset_of_epoch()[d.epoch@] == d.valset);
}

} // verus!
