//! Block headers and an append-only store of them keyed by hash.
use crate::hash::CryptoHash;
use crate::table::Table;
use vstd::prelude::*;

verus! {

/// What this crate reads of a block header.
#[derive(Clone, Copy, Debug)]
pub struct BlockHeader {
    pub hash: CryptoHash,
    pub prev_hash: CryptoHash,
    pub height: u64,
    /// The hash of the last final block, or the zero hash where there is none.
    pub last_final_block: CryptoHash,
}

/// Headers keyed by their hash; a stored header is never replaced.
pub struct HeaderStore {
    table: Table<BlockHeader>,
}

impl HeaderStore {
    pub closed spec fn wf(&self) -> bool {
        &&& self.table.wf()
        &&& forall|k: Seq<u8>| #[trigger] self.table.view().contains_key(k) ==> self.table.view()[k].hash@ == k
    }

    pub closed spec fn view(&self) -> Map<Seq<u8>, BlockHeader> {
        self.table.view()
    }

    pub fn new() -> (r: HeaderStore)
        ensures
            r.wf(),
            r.view() == Map::<Seq<u8>, BlockHeader>::empty(),
    {
        HeaderStore { table: Table::new() }
    }

    /// Stores `h` under its hash, unless a header with that hash is stored.
    pub fn add(&mut self, h: BlockHeader)
        requires
            old(self).wf(),
        ensures
            final(self).wf(),
            final(self).view() == (if old(self).view().contains_key(h.hash@) {
                old(self).view()
            } else {
                old(self).view().insert(h.hash@, h)
            }),
    {
        if !self.table.contains(&h.hash) {
            self.table.insert(h.hash, h);
        }
    }

    pub fn get(&self, k: &CryptoHash) -> (r: Option<BlockHeader>)
        requires
            self.wf(),
        ensures
            r == (if self.view().contains_key(k@) {
                Some(self.view()[k@])
            } else {
                None::<BlockHeader>
            }),
    {
        match self.table.get(k) {
            Some(h) => Some(*h),
            None => None,
        }
    }
}

} // verus!
