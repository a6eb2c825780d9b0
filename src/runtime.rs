//! The key-value runtime: a content-addressed, append-only table of ledger
//! snapshots, and the chunk, state-part and account queries over it.
use crate::account::AccountId;
use crate::chunk::{
    apply_model, apply_to_snapshot, outcome_views, receipt_views, transaction_views, ApplyError, Outcome,
    OutcomeView, Receipt, ReceiptView, Transaction,
};
use crate::encoding::{
    decode_snapshot, encode_snapshot, fits_u32, ledger_fits, lemma_encodable_iff_fits, snapshot_bytes,
    snapshot_encodable,
};
use crate::epoch::MockEpochManager;
use crate::hash::{hash_bytes, sha256_of, zero_bytes, CryptoHash};
use crate::header::{BlockHeader, HeaderStore};
use crate::snapshot::{balance_in, LedgerView, Snapshot};
use crate::schedule::account_views;
use crate::table::Table;
use vstd::prelude::*;

verus! {

/// How many epochs of blocks are kept before garbage collection.
pub const GC_NUM_EPOCHS_TO_KEEP: u64 = 5;

/// A stored snapshot and the size of its serialized form.
pub struct StateEntry {
    pub snapshot: Snapshot,
    pub size: u64,
}

/// A stored entry: a well-formed snapshot with its serialized size.
pub open spec fn entry_ok(e: StateEntry) -> bool {
    &&& e.snapshot.wf()
    &&& snapshot_encodable(e.snapshot)
    &&& e.size == snapshot_bytes(e.snapshot).len()
}

/// What applying a chunk returns.
pub struct ApplyChunkResult {
    pub new_root: CryptoHash,
    pub outcomes: Vec<Outcome>,
    pub outgoing_receipts: Vec<Receipt>,
}

/// The runtime. Snapshots are keyed by state root and never replaced.
pub struct KeyValueRuntime {
    num_shards: u64,
    epoch_length: u64,
    no_gc: bool,
    states: Table<StateEntry>,
    headers: HeaderStore,
}

impl KeyValueRuntime {
    pub closed spec fn wf(&self) -> bool {
        &&& self.num_shards > 0
        &&& self.states.wf()
        &&& self.headers.wf()
        &&& forall|k: Seq<u8>| #[trigger] self.states.view().contains_key(k) ==> entry_ok(self.states.view()[k])
        &&& forall|k: Seq<u8>|
            #[trigger] self.states.view().contains_key(k) && k != zero_bytes() ==> k == sha256_of(
                snapshot_bytes(self.states.view()[k].snapshot),
            )
    }

    /// Every stored root but the genesis zero root is the hash of the
    /// serialized snapshot stored under it.
    pub proof fn lemma_content_addressed(&self, root: Seq<u8>)
        requires
            self.wf(),
            self.states().contains_key(root),
            root != zero_bytes(),
        ensures
            root == sha256_of(snapshot_bytes(self.states()[root].snapshot)),
    {
    }

    /// The stored snapshots, by state root.
    pub closed spec fn states(&self) -> Map<Seq<u8>, StateEntry> {
        self.states.view()
    }

    pub closed spec fn headers_view(&self) -> Map<Seq<u8>, BlockHeader> {
        self.headers.view()
    }

    pub closed spec fn num_shards_spec(&self) -> u64 {
        self.num_shards
    }

    pub closed spec fn epoch_length_spec(&self) -> u64 {
        self.epoch_length
    }

    pub closed spec fn no_gc_spec(&self) -> bool {
        self.no_gc
    }

    /// The contents stored under `root`.
    pub open spec fn ledger(&self, root: Seq<u8>) -> LedgerView {
        self.states()[root].snapshot@
    }

    pub fn num_shards(&self) -> (r: u64)
        ensures
            r == self.num_shards_spec(),
    {
        self.num_shards
    }

    /// Stores a block header; one already stored under its hash is kept.
    pub fn add_header(&mut self, h: BlockHeader)
        requires
            old(self).wf(),
        ensures
            final(self).wf(),
            final(self).states() == old(self).states(),
            final(self).num_shards_spec() == old(self).num_shards_spec(),
            final(self).epoch_length_spec() == old(self).epoch_length_spec(),
            final(self).no_gc_spec() == old(self).no_gc_spec(),
            final(self).headers_view() == (if old(self).headers_view().contains_key(h.hash@) {
                old(self).headers_view()
            } else {
                old(self).headers_view().insert(h.hash@, h)
            }),
    {
        self.headers.add(h);
    }

    /// Stores `s` under `root` unless a snapshot is stored there already.
    fn insert_state(&mut self, root: CryptoHash, s: Snapshot, size: u64)
        requires
            old(self).wf(),
            entry_ok(StateEntry { snapshot: s, size }),
            root@ != zero_bytes() ==> root@ == sha256_of(snapshot_bytes(s)),
        ensures
            final(self).wf(),
            final(self).states() == (if old(self).states().contains_key(root@) {
                old(self).states()
            } else {
                old(self).states().insert(root@, StateEntry { snapshot: s, size })
            }),
            final(self).headers_view() == old(self).headers_view(),
            final(self).num_shards_spec() == old(self).num_shards_spec(),
            final(self).epoch_length_spec() == old(self).epoch_length_spec(),
            final(self).no_gc_spec() == old(self).no_gc_spec(),
    {
        if !self.states.contains(&root) {
            self.states.insert(root, StateEntry { snapshot: s, size });
        }
    }
}

/// There are fewer than 2^32 names and each is shorter than 2^32 bytes.
pub open spec fn names_fit(names: Seq<Seq<u8>>) -> bool {
    &&& fits_u32(names.len() as int)
    &&& forall|i: int| 0 <= i < names.len() ==> fits_u32(#[trigger] names[i].len() as int)
}

/// The contents of the genesis snapshot.
pub open spec fn genesis_ledger(em: &MockEpochManager) -> LedgerView {
    LedgerView {
        balances: genesis_balances(crate::epoch::flat_producers(em.valsets())),
        receipts: Set::empty(),
        nonces: Set::empty(),
    }
}

/// The genesis balances: the `i`-th name of `accounts` holds `1000 + 100 * i`;
/// a name listed twice keeps its last balance.
pub open spec fn genesis_balances(accounts: Seq<Seq<u8>>) -> Map<Seq<u8>, u128>
    decreases accounts.len(),
{
    if accounts.len() == 0 {
        Map::empty()
    } else {
        genesis_balances(accounts.drop_last()).insert(
            accounts.last(),
            (1000 + 100 * (accounts.len() - 1)) as u128,
        )
    }
}

impl KeyValueRuntime {
    /// A runtime whose genesis snapshot, stored under the zero root, gives
    /// every block producer of the schedule its initial balance.
    pub fn new(epoch_manager: &MockEpochManager) -> (r: Result<KeyValueRuntime, ApplyError>)
        requires
            epoch_manager.wf(),
        ensures
            r is Ok ==> r.unwrap().genesis_of(epoch_manager, false),
            names_fit(crate::epoch::flat_producers(epoch_manager.valsets())) ==> r is Ok,
            r is Err ==> r == Err::<KeyValueRuntime, ApplyError>(ApplyError::TooLargeToSerialize) && !ledger_fits(
                genesis_ledger(epoch_manager),
            ),
    {
        KeyValueRuntime::new_with_no_gc(epoch_manager, false)
    }

    /// The state right after construction from `em`.
    pub open spec fn genesis_of(&self, em: &MockEpochManager, no_gc: bool) -> bool {
        &&& self.wf()
        &&& self.num_shards_spec() == em.num_shards_spec()
        &&& self.epoch_length_spec() == em.epoch_length_spec()
        &&& self.no_gc_spec() == no_gc
        &&& self.headers_view() == Map::<Seq<u8>, BlockHeader>::empty()
        &&& self.states().dom() == set![zero_bytes()]
        &&& self.ledger(zero_bytes()).balances == genesis_balances(crate::epoch::flat_producers(em.valsets()))
        &&& self.ledger(zero_bytes()).receipts == Set::<Seq<u8>>::empty()
        &&& self.ledger(zero_bytes()).nonces == Set::<(Seq<u8>, u64)>::empty()
    }

    /// As `new`; with `no_gc` garbage collection never advances.
    pub fn new_with_no_gc(epoch_manager: &MockEpochManager, no_gc: bool) -> (r: Result<KeyValueRuntime, ApplyError>)
        requires
            epoch_manager.wf(),
        ensures
            r is Ok ==> r.unwrap().genesis_of(epoch_manager, no_gc),
            names_fit(crate::epoch::flat_producers(epoch_manager.valsets())) ==> r is Ok,
            r is Err ==> r == Err::<KeyValueRuntime, ApplyError>(ApplyError::TooLargeToSerialize) && !ledger_fits(
                genesis_ledger(epoch_manager),
            ),
    {
        proof {
            epoch_manager.lemma_wf_sizes();
        }
        let producers = epoch_manager.all_block_producers();
        let ghost accs = account_views(producers@);
        let mut s = Snapshot::empty();
        let mut i: usize = 0;
        assert(accs.take(0) =~= Seq::<Seq<u8>>::empty());
        while i < producers.len()
            invariant
                0 <= i <= producers@.len(),
                accs == account_views(producers@),
                s.wf(),
                s@.balances == genesis_balances(accs.take(i as int)),
                s@.receipts == Set::<Seq<u8>>::empty(),
                s@.nonces == Set::<(Seq<u8>, u64)>::empty(),
                s.receipt_ids@.len() == 0,
                s.tx_nonces@.len() == 0,
                s.amounts@.len() <= i,
                forall|j: int|
                    0 <= j < s.amounts@.len() ==> exists|m: int| 0 <= m < i && accs[m] == (#[trigger] s.amounts@[j]).0@,
            decreases producers@.len() - i,
        {
            let amount: u128 = 1000 + 100 * (i as u128);
            let ghost before = s.amounts@;
            s.set_balance(&producers[i], amount);
            proof {
                assert forall|j: int| 0 <= j < s.amounts@.len() implies exists|m: int|
                    0 <= m < i + 1 && accs[m] == (#[trigger] s.amounts@[j]).0@ by {
                    if s.amounts@[j].0@ != producers@[i as int]@ {
                        let m = choose|m: int| 0 <= m < before.len() && before[m].0@ == s.amounts@[j].0@;
                        assert(exists|q: int| 0 <= q < i && accs[q] == before[m].0@);
                    } else {
                        assert(accs[i as int] == s.amounts@[j].0@);
                    }
                }
                assert(accs.take(i + 1).drop_last() =~= accs.take(i as int));
                assert(accs.take(i + 1).last() == producers@[i as int]@);
            }
            i = i + 1;
        }
        assert(accs.take(i as int) =~= accs);
        assert(crate::epoch::flat_producers(epoch_manager.valsets()) == accs);
        let size = match encode_snapshot(&s) {
            Some(data) => data.len() as u64,
            None => {
                assert(s@ =~= genesis_ledger(epoch_manager));
                proof {
                    lemma_encodable_iff_fits(s);
                    if names_fit(accs) {
                        assert forall|j: int| 0 <= j < s.amounts@.len() implies fits_u32(#[trigger] s.amounts@[j].0@.len() as int) by {
                            let m = choose|m: int| 0 <= m < i && accs[m] == s.amounts@[j].0@;
                        }
                        assert(snapshot_encodable(s));
                    }
                }
                return Err(ApplyError::TooLargeToSerialize);
            },
        };
        let mut states: Table<StateEntry> = Table::new();
        let zero = CryptoHash::zero();
        states.insert(zero, StateEntry { snapshot: s, size });
        let r = KeyValueRuntime {
            num_shards: epoch_manager.num_shards(),
            epoch_length: epoch_manager.epoch_length(),
            no_gc,
            states,
            headers: HeaderStore::new(),
        };
        assert(r.states().dom() =~= set![zero_bytes()]);
        assert(crate::epoch::flat_producers(epoch_manager.valsets()) == accs);
        Ok(r)
    }

    /// Applies a chunk of shard `shard_id` to the snapshot under
    /// `prev_state_root`. The new snapshot is stored under the hash of its
    /// serialized form, unless that root is stored already; no stored
    /// snapshot is ever replaced.
    pub fn apply_chunk(
        &mut self,
        prev_state_root: &CryptoHash,
        shard_id: u64,
        receipts: &Vec<Receipt>,
        transactions: &Vec<Transaction>,
    ) -> (r: Result<ApplyChunkResult, ApplyError>)
        requires
            old(self).wf(),
        ensures
            final(self).wf(),
            final(self).headers_view() == old(self).headers_view(),
            final(self).num_shards_spec() == old(self).num_shards_spec(),
            final(self).epoch_length_spec() == old(self).epoch_length_spec(),
            final(self).no_gc_spec() == old(self).no_gc_spec(),
            r is Err ==> final(self).states() == old(self).states(),
            old(self).states().submap_of(final(self).states()),
            !old(self).states().contains_key(prev_state_root@) ==> r == Err::<ApplyChunkResult, ApplyError>(
                ApplyError::MissingState,
            ),
            old(self).states().contains_key(prev_state_root@) ==> match (
                r,
                apply_model(
                    old(self).ledger(prev_state_root@),
                    receipt_views(receipts@),
                    transaction_views(transactions@),
                    shard_id,
                    old(self).num_shards_spec(),
                ),
            ) {
                (Ok(res), Ok((v, ov, rv))) => {
                    &&& outcome_views(res.outcomes@) == ov
                    &&& receipt_views(res.outgoing_receipts@) == rv
                    &&& exists|e: StateEntry|
                        {
                            &&& entry_ok(e)
                            &&& e.snapshot@ == v
                            &&& res.new_root@ == sha256_of(snapshot_bytes(e.snapshot))
                            &&& final(self).states() == if old(self).states().contains_key(res.new_root@) {
                                old(self).states()
                            } else {
                                old(self).states().insert(res.new_root@, e)
                            }
                        }
                },
                (Err(e), Err(f)) => e == f,
                (Err(e), Ok((v, _, _))) => e == ApplyError::TooLargeToSerialize && !ledger_fits(v),
                (Ok(_), Err(_)) => false,
            },
    {
        let entry = match self.states.get(prev_state_root) {
            Some(e) => e,
            None => return Err(ApplyError::MissingState),
        };
        let (s, outcomes, outgoing_receipts) = match apply_to_snapshot(
            &entry.snapshot,
            shard_id,
            self.num_shards,
            receipts,
            transactions,
        ) {
            Ok(x) => x,
            Err(e) => return Err(e),
        };
        let data = match encode_snapshot(&s) {
            Some(d) => d,
            None => {
                proof {
                    lemma_encodable_iff_fits(s);
                }
                return Err(ApplyError::TooLargeToSerialize);
            },
        };
        let size = data.len() as u64;
        let new_root = hash_bytes(data.as_slice());
        let ghost e = StateEntry { snapshot: s, size };
        self.insert_state(new_root, s, size);
        assert(entry_ok(e) && e.snapshot@ == e.snapshot@);
        assert(old(self).states().submap_of(self.states()));
        Ok(ApplyChunkResult { new_root, outcomes, outgoing_receipts })
    }

    /// State part `part_id` of the snapshot under `state_root`: part 0 is the
    /// whole serialized snapshot and every other part is empty.
    pub fn obtain_state_part(&self, state_root: &CryptoHash, part_id: u64) -> (r: Result<Vec<u8>, ApplyError>)
        requires
            self.wf(),
        ensures
            part_id != 0 ==> r is Ok && r.unwrap()@.len() == 0,
            part_id == 0 && !self.states().contains_key(state_root@) ==> r == Err::<Vec<u8>, ApplyError>(
                ApplyError::MissingState,
            ),
            part_id == 0 && self.states().contains_key(state_root@) ==> r is Ok && r.unwrap()@ == snapshot_bytes(
                self.states()[state_root@].snapshot,
            ),
            part_id == 0 && self.states().contains_key(state_root@) && state_root@ != zero_bytes() ==> sha256_of(
                r.unwrap()@,
            ) == state_root@,
    {
        if part_id != 0 {
            return Ok(Vec::new());
        }
        match self.states.get(state_root) {
            Some(e) => match encode_snapshot(&e.snapshot) {
                Some(d) => Ok(d),
                None => Err(ApplyError::TooLargeToSerialize),
            },
            None => Err(ApplyError::MissingState),
        }
    }

    /// Imports state part `part_id` under `state_root`: part 0 must be the
    /// serialized form of a well-formed snapshot whose hash is `state_root`
    /// (any data may stand under the genesis zero root). It is stored unless a
    /// snapshot is stored under that root already, which must then have the
    /// same serialized form; other parts are ignored.
    pub fn apply_state_part(&mut self, state_root: &CryptoHash, part_id: u64, data: &[u8]) -> (r: Result<(), ApplyError>)
        requires
            old(self).wf(),
        ensures
            final(self).wf(),
            final(self).headers_view() == old(self).headers_view(),
            final(self).num_shards_spec() == old(self).num_shards_spec(),
            final(self).epoch_length_spec() == old(self).epoch_length_spec(),
            final(self).no_gc_spec() == old(self).no_gc_spec(),
            part_id != 0 ==> r is Ok && final(self).states() == old(self).states(),
            r is Err ==> final(self).states() == old(self).states(),
            part_id == 0 && state_root@ != zero_bytes() && sha256_of(data@) != state_root@ ==> r == Err::<(), ApplyError>(
                ApplyError::StateRootMismatch,
            ),
            part_id == 0 && (state_root@ == zero_bytes() || sha256_of(data@) == state_root@) && old(
                self,
            ).states().contains_key(state_root@) ==> if snapshot_bytes(old(self).states()[state_root@].snapshot)
                == data@ {
                r is Ok
            } else {
                r == Err::<(), ApplyError>(ApplyError::StateRootConflict)
            },
            part_id == 0 && (state_root@ == zero_bytes() || sha256_of(data@) == state_root@) && (exists|s: Snapshot|
                s.wf() && snapshot_encodable(s) && snapshot_bytes(s) == data@) ==> r is Ok || r
                == Err::<(), ApplyError>(ApplyError::StateRootConflict),
            part_id == 0 && r is Ok ==> {
                &&& final(self).states().contains_key(state_root@)
                &&& snapshot_bytes(final(self).states()[state_root@].snapshot) == data@
                &&& old(self).states().contains_key(state_root@) ==> final(self).states() == old(self).states()
                &&& !old(self).states().contains_key(state_root@) ==> exists|e: StateEntry|
                    {
                        &&& entry_ok(e)
                        &&& snapshot_bytes(e.snapshot) == data@
                        &&& final(self).states() == old(self).states().insert(state_root@, e)
                    }
            },
    {
        if part_id != 0 {
            return Ok(());
        }
        if !state_root.is_zero() && !(hash_bytes(data) == *state_root) {
            return Err(ApplyError::StateRootMismatch);
        }
        match self.states.get(state_root) {
            Some(stored) => {
                let bytes = match encode_snapshot(&stored.snapshot) {
                    Some(d) => d,
                    None => return Err(ApplyError::TooLargeToSerialize),
                };
                if crate::account::bytes_equal(bytes.as_slice(), data) {
                    return Ok(());
                } else {
                    return Err(ApplyError::StateRootConflict);
                }
            },
            None => {},
        }
        let s = match decode_snapshot(data) {
            Some(s) => s,
            None => return Err(ApplyError::MalformedStatePart),
        };
        let size = match encode_snapshot(&s) {
            Some(d) => d.len() as u64,
            None => return Err(ApplyError::TooLargeToSerialize),
        };
        let ghost e = StateEntry { snapshot: s, size };
        assert(state_root@ != zero_bytes() ==> state_root@ == sha256_of(snapshot_bytes(s)));
        self.insert_state(*state_root, s, size);
        assert(entry_ok(e));
        Ok(())
    }

    /// The serialized snapshot under `state_root` and its size.
    pub fn get_state_root_node(&self, state_root: &CryptoHash) -> (r: Result<(Vec<u8>, u64), ApplyError>)
        requires
            self.wf(),
        ensures
            !self.states().contains_key(state_root@) ==> r == Err::<(Vec<u8>, u64), ApplyError>(
                ApplyError::MissingState,
            ),
            self.states().contains_key(state_root@) ==> r is Ok && r.unwrap().0@ == snapshot_bytes(
                self.states()[state_root@].snapshot,
            ) && r.unwrap().1 == self.states()[state_root@].size && r.unwrap().1 == r.unwrap().0@.len(),
    {
        match self.states.get(state_root) {
            Some(e) => match encode_snapshot(&e.snapshot) {
                Some(d) => Ok((d, e.size)),
                None => Err(ApplyError::TooLargeToSerialize),
            },
            None => Err(ApplyError::MissingState),
        }
    }

    /// The balance of `account_id` in the snapshot under `state_root`: zero
    /// where the account or the root is unknown.
    pub fn view_account(&self, state_root: &CryptoHash, account_id: &AccountId) -> (r: u128)
        requires
            self.wf(),
        ensures
            r == (if self.states().contains_key(state_root@) {
                balance_in(self.ledger(state_root@).balances, account_id@)
            } else {
                0
            }),
    {
        match self.states.get(state_root) {
            Some(e) => match e.snapshot.get_balance(account_id) {
                Some(b) => b,
                None => 0,
            },
            None => 0,
        }
    }

    /// The height below which blocks may be collected: the block's height
    /// less the kept epochs, or zero when collection is off or the block is
    /// unknown.
    pub fn get_gc_stop_height(&self, block_hash: &CryptoHash) -> (r: u64)
        requires
            self.wf(),
        ensures
            r == (if self.no_gc_spec() || !self.headers_view().contains_key(block_hash@) {
                0
            } else {
                let h = self.headers_view()[block_hash@].height as int;
                let keep = GC_NUM_EPOCHS_TO_KEEP * self.epoch_length_spec();
                if h > keep {
                    h - keep
                } else {
                    0
                }
            }),
    {
        if self.no_gc {
            return 0;
        }
        let height = match self.headers.get(block_hash) {
            Some(h) => h.height,
            None => 0,
        };
        let keep = (GC_NUM_EPOCHS_TO_KEEP as u128) * (self.epoch_length as u128);
        if (height as u128) > keep {
            ((height as u128) - keep) as u64
        } else {
            0
        }
    }
}

/// Two applications of one chunk to one stored root are independent: after
/// the first, the root still holds what it held, so the second reads the same
/// snapshot and derives the same contents, outcomes and receipts; and every
/// root stored before either application stays reachable with its snapshot.
pub proof fn lemma_applications_independent(
    before: &KeyValueRuntime,
    after_first: &KeyValueRuntime,
    after_second: &KeyValueRuntime,
    prev_state_root: Seq<u8>,
    receipts: Seq<ReceiptView>,
    transactions: Seq<crate::chunk::TransactionView>,
    shard_id: u64,
)
    requires
        before.states().contains_key(prev_state_root),
        before.states().submap_of(after_first.states()),
        after_first.states().submap_of(after_second.states()),
        after_first.num_shards_spec() == before.num_shards_spec(),
    ensures
        after_first.states().contains_key(prev_state_root),
        after_first.ledger(prev_state_root) == before.ledger(prev_state_root),
        apply_model(after_first.ledger(prev_state_root), receipts, transactions, shard_id, after_first.num_shards_spec())
            == apply_model(before.ledger(prev_state_root), receipts, transactions, shard_id, before.num_shards_spec()),
        after_first.states().submap_of(after_second.states()),
        after_second.states()[prev_state_root] == before.states()[prev_state_root],
{
    assert(before.states().dom().contains(prev_state_root));
    assert(after_first.states().contains_key(prev_state_root) && after_first.states()[prev_state_root]
        == before.states()[prev_state_root]);
    assert(after_second.states().contains_key(prev_state_root) && after_second.states()[prev_state_root]
        == after_first.states()[prev_state_root]);
}

/// Stored snapshots with the same contents have the same serialized form,
/// size and state root: the root of an application depends only on what the
/// new snapshot holds.
pub proof fn lemma_same_contents_same_root(a: StateEntry, b: StateEntry)
    requires
        entry_ok(a),
        entry_ok(b),
        a.snapshot@ == b.snapshot@,
    ensures
        sha256_of(snapshot_bytes(a.snapshot)) == sha256_of(snapshot_bytes(b.snapshot)),
        a.size == b.size,
{
    crate::encoding::lemma_equal_contents_equal_bytes(a.snapshot, b.snapshot);
}

/// An exported state part imported elsewhere reproduces the snapshot: stored
/// entries whose serialized forms are equal hold the same contents and size.
pub proof fn lemma_state_part_round_trip(exported: StateEntry, imported: StateEntry)
    requires
        entry_ok(exported),
        entry_ok(imported),
        snapshot_bytes(imported.snapshot) == snapshot_bytes(exported.snapshot),
    ensures
        imported.snapshot@ == exported.snapshot@,
        imported.size == exported.size,
{
    crate::encoding::lemma_bytes_determine_form(imported.snapshot, exported.snapshot);
    crate::encoding::lemma_same_form_bytes(imported.snapshot, exported.snapshot);
}

} // verus!
