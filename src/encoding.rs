//! The Borsh byte form of snapshots and of the record that names a
//! cross-shard receipt: integers little-endian, byte strings and sequences
//! prefixed with their length as a 32-bit integer.
use crate::account::{bytes_lt, AccountId};
use crate::hash::CryptoHash;
use crate::snapshot::{pair_lt, LedgerView, Snapshot};
use vstd::prelude::*;

verus! {

/// The `n` low bytes of `x`, least significant first.
pub open spec fn le_bytes(x: nat, n: nat) -> Seq<u8>
    decreases n,
{
    if n == 0 {
        Seq::empty()
    } else {
        seq![(x % 256) as u8] + le_bytes(x / 256, (n - 1) as nat)
    }
}

/// A length prefix.
pub open spec fn enc_len(n: nat) -> Seq<u8> {
    le_bytes(n, 4)
}

/// A byte string: its length, then its bytes.
pub open spec fn enc_bytes(b: Seq<u8>) -> Seq<u8> {
    enc_len(b.len()) + b
}

pub open spec fn enc_balances(s: Seq<(AccountId, u128)>) -> Seq<u8>
    decreases s.len(),
{
    if s.len() == 0 {
        Seq::empty()
    } else {
        enc_bytes(s[0].0@) + le_bytes(s[0].1 as nat, 16) + enc_balances(s.drop_first())
    }
}

pub open spec fn enc_hashes(s: Seq<CryptoHash>) -> Seq<u8>
    decreases s.len(),
{
    if s.len() == 0 {
        Seq::empty()
    } else {
        s[0]@ + enc_hashes(s.drop_first())
    }
}

pub open spec fn enc_nonces(s: Seq<(AccountId, u64)>) -> Seq<u8>
    decreases s.len(),
{
    if s.len() == 0 {
        Seq::empty()
    } else {
        enc_bytes(s[0].0@) + le_bytes(s[0].1 as nat, 8) + enc_nonces(s.drop_first())
    }
}

/// The serialized form of a snapshot: the balance table, the applied receipt
/// ids and the applied (receiver, nonce) pairs, each in its stored order.
pub open spec fn snapshot_bytes(s: Snapshot) -> Seq<u8> {
    enc_len(s.amounts@.len()) + enc_balances(s.amounts@) + enc_len(s.receipt_ids@.len())
        + enc_hashes(s.receipt_ids@) + enc_len(s.tx_nonces@.len()) + enc_nonces(s.tx_nonces@)
}

pub open spec fn fits_u32(n: int) -> bool {
    n < 0x1_0000_0000
}

/// Every length prefix of the snapshot's form fits in 32 bits.
pub open spec fn snapshot_encodable(s: Snapshot) -> bool {
    &&& fits_u32(s.amounts@.len() as int)
    &&& fits_u32(s.receipt_ids@.len() as int)
    &&& fits_u32(s.tx_nonces@.len() as int)
    &&& forall|i: int| 0 <= i < s.amounts@.len() ==> fits_u32(#[trigger] s.amounts@[i].0@.len() as int)
    &&& forall|i: int| 0 <= i < s.tx_nonces@.len() ==> fits_u32(#[trigger] s.tx_nonces@[i].0@.len() as int)
}

/// Relies on borsh::to_vec on `(Vec<(&[u8], u128)>, Vec<[u8; 32]>, Vec<(&[u8], u64)>)`:
/// the Borsh form above, or an error when a length does not fit in 32 bits.
#[verifier::external_body]
fn borsh_snapshot(s: &Snapshot) -> (r: Option<Vec<u8>>)
    ensures
        r.is_some() == snapshot_encodable(*s),
        r.is_some() ==> r.unwrap()@ == snapshot_bytes(*s),
{
    let a: Vec<(&[u8], u128)> = s.amounts.iter().map(|e| (e.0.bytes.as_slice(), e.1)).collect();
    let h: Vec<[u8; 32]> = s.receipt_ids.iter().map(|e| e.bytes).collect();
    let n: Vec<(&[u8], u64)> = s.tx_nonces.iter().map(|e| (e.0.bytes.as_slice(), e.1)).collect();
    borsh::to_vec(&(a, h, n)).ok()
}

/// Relies on borsh::from_slice for `(Vec<(Vec<u8>, u128)>, Vec<[u8; 32]>, Vec<(Vec<u8>, u64)>)`:
/// a value is returned only when `data` is exactly its Borsh form, every
/// length having been read as a 32-bit integer; and `from_slice` succeeds on
/// the Borsh form of any such value, failing only on malformed or leftover bytes.
#[verifier::external_body]
fn borsh_parse_snapshot(data: &[u8]) -> (r: Option<Snapshot>)
    ensures
        r.is_some() ==> snapshot_bytes(r.unwrap()) == data@,
        r.is_some() ==> snapshot_encodable(r.unwrap()),
        (exists|s: Snapshot| snapshot_encodable(s) && snapshot_bytes(s) == data@) ==> r.is_some(),
{
    let parsed = borsh::from_slice::<(Vec<(Vec<u8>, u128)>, Vec<[u8; 32]>, Vec<(Vec<u8>, u64)>)>(data);
    match parsed {
        Ok((a, h, n)) => Some(Snapshot {
            amounts: a.into_iter().map(|e| (AccountId { bytes: e.0 }, e.1)).collect(),
            receipt_ids: h.into_iter().map(|b| CryptoHash { bytes: b }).collect(),
            tx_nonces: n.into_iter().map(|e| (AccountId { bytes: e.0 }, e.1)).collect(),
        }),
        Err(_) => None,
    }
}

/// The Borsh form of the record that names a cross-shard transfer receipt.
pub open spec fn receipt_record_bytes(from: Seq<u8>, to: Seq<u8>, amount: u128, nonce: u64) -> Seq<u8> {
    enc_bytes(from) + enc_bytes(to) + le_bytes(amount as nat, 16) + le_bytes(nonce as nat, 8)
}

/// Relies on borsh::to_vec on `(&[u8], &[u8], u128, u64)`: the Borsh form
/// above, or an error when a name's length does not fit in 32 bits.
#[verifier::external_body]
fn borsh_receipt_record(from: &AccountId, to: &AccountId, amount: u128, nonce: u64) -> (r: Option<Vec<u8>>)
    ensures
        r.is_some() == (fits_u32(from@.len() as int) && fits_u32(to@.len() as int)),
        r.is_some() ==> r.unwrap()@ == receipt_record_bytes(from@, to@, amount, nonce),
{
    borsh::to_vec(&(from.bytes.as_slice(), to.bytes.as_slice(), amount, nonce)).ok()
}

/// Serializes a snapshot, or `None` when one of its lengths does not fit in 32 bits.
pub fn encode_snapshot(s: &Snapshot) -> (r: Option<Vec<u8>>)
    ensures
        r.is_some() == snapshot_encodable(*s),
        r.is_some() ==> r.unwrap()@ == snapshot_bytes(*s),
{
    borsh_snapshot(s)
}

/// Parses a serialized snapshot; only a well-formed one (keys strictly
/// increasing) is accepted, and the serialized form of every well-formed
/// snapshot is.
pub fn decode_snapshot(data: &[u8]) -> (r: Option<Snapshot>)
    ensures
        r.is_some() ==> r.unwrap().wf() && snapshot_encodable(r.unwrap()) && snapshot_bytes(r.unwrap()) == data@,
        (exists|s: Snapshot| s.wf() && snapshot_encodable(s) && snapshot_bytes(s) == data@) ==> r.is_some(),
{
    match borsh_parse_snapshot(data) {
        Some(p) => {
            if p.is_well_formed() {
                Some(p)
            } else {
                proof {
                    if exists|s: Snapshot| s.wf() && snapshot_encodable(s) && snapshot_bytes(s) == data@ {
                        let s = choose|s: Snapshot| s.wf() && snapshot_encodable(s) && snapshot_bytes(s) == data@;
                        lemma_bytes_determine_form(p, s);
                        lemma_same_form_bytes(p, s);
                    }
                }
                None
            }
        },
        None => None,
    }
}

/// Serializes the record that names a cross-shard transfer receipt, or `None`
/// when a name is too long to serialize.
pub fn encode_receipt_record(from: &AccountId, to: &AccountId, amount: u128, nonce: u64) -> (r: Option<Vec<u8>>)
    ensures
        r.is_some() == (fits_u32(from@.len() as int) && fits_u32(to@.len() as int)),
        r.is_some() ==> r.unwrap()@ == receipt_record_bytes(from@, to@, amount, nonce),
{
    borsh_receipt_record(from, to, amount, nonce)
}

/// Entry by entry the same names and numbers.
pub open spec fn same_balances(a: Seq<(AccountId, u128)>, b: Seq<(AccountId, u128)>) -> bool {
    a.len() == b.len() && forall|i: int| 0 <= i < a.len() ==> (#[trigger] a[i]).0@ == b[i].0@ && a[i].1 == b[i].1
}

pub open spec fn same_hashes(a: Seq<CryptoHash>, b: Seq<CryptoHash>) -> bool {
    a.len() == b.len() && forall|i: int| 0 <= i < a.len() ==> (#[trigger] a[i])@ == b[i]@
}

pub open spec fn same_nonces(a: Seq<(AccountId, u64)>, b: Seq<(AccountId, u64)>) -> bool {
    a.len() == b.len() && forall|i: int| 0 <= i < a.len() ==> (#[trigger] a[i]).0@ == b[i].0@ && a[i].1 == b[i].1
}

/// Two snapshots with entry-by-entry equal tables.
pub open spec fn same_form(a: Snapshot, b: Snapshot) -> bool {
    &&& same_balances(a.amounts@, b.amounts@)
    &&& same_hashes(a.receipt_ids@, b.receipt_ids@)
    &&& same_nonces(a.tx_nonces@, b.tx_nonces@)
}

proof fn lemma_same_balances_bytes(a: Seq<(AccountId, u128)>, b: Seq<(AccountId, u128)>)
    requires
        same_balances(a, b),
    ensures
        enc_balances(a) == enc_balances(b),
    decreases a.len(),
{
    if a.len() > 0 {
        lemma_same_balances_bytes(a.drop_first(), b.drop_first());
    }
}

proof fn lemma_same_hashes_bytes(a: Seq<CryptoHash>, b: Seq<CryptoHash>)
    requires
        same_hashes(a, b),
    ensures
        enc_hashes(a) == enc_hashes(b),
    decreases a.len(),
{
    if a.len() > 0 {
        lemma_same_hashes_bytes(a.drop_first(), b.drop_first());
    }
}

proof fn lemma_same_nonces_bytes(a: Seq<(AccountId, u64)>, b: Seq<(AccountId, u64)>)
    requires
        same_nonces(a, b),
    ensures
        enc_nonces(a) == enc_nonces(b),
    decreases a.len(),
{
    if a.len() > 0 {
        lemma_same_nonces_bytes(a.drop_first(), b.drop_first());
    }
}

/// Snapshots of the same form serialize alike.
pub proof fn lemma_same_form_bytes(a: Snapshot, b: Snapshot)
    requires
        same_form(a, b),
    ensures
        snapshot_bytes(a) == snapshot_bytes(b),
        snapshot_encodable(a) == snapshot_encodable(b),
        a.wf() == b.wf(),
        a.wf() ==> a@ == b@,
{
    lemma_same_balances_bytes(a.amounts@, b.amounts@);
    lemma_same_hashes_bytes(a.receipt_ids@, b.receipt_ids@);
    lemma_same_nonces_bytes(a.tx_nonces@, b.tx_nonces@);
    assert(snapshot_encodable(a) == snapshot_encodable(b)) by {
        if snapshot_encodable(a) {
            assert forall|i: int| 0 <= i < b.amounts@.len() implies fits_u32(#[trigger] b.amounts@[i].0@.len() as int) by {
                assert(a.amounts@[i].0@ == b.amounts@[i].0@);
            }
            assert forall|i: int| 0 <= i < b.tx_nonces@.len() implies fits_u32(#[trigger] b.tx_nonces@[i].0@.len() as int) by {
                assert(a.tx_nonces@[i].0@ == b.tx_nonces@[i].0@);
            }
        }
        if snapshot_encodable(b) {
            assert forall|i: int| 0 <= i < a.amounts@.len() implies fits_u32(#[trigger] a.amounts@[i].0@.len() as int) by {
                assert(a.amounts@[i].0@ == b.amounts@[i].0@);
            }
            assert forall|i: int| 0 <= i < a.tx_nonces@.len() implies fits_u32(#[trigger] a.tx_nonces@[i].0@.len() as int) by {
                assert(a.tx_nonces@[i].0@ == b.tx_nonces@[i].0@);
            }
        }
    }
    assert(a.wf() == b.wf()) by {
        if a.wf() {
            assert forall|i: int, j: int| 0 <= i < j < b.amounts@.len() implies bytes_lt(#[trigger] b.amounts@[i].0@, #[trigger] b.amounts@[j].0@) by {
                assert(a.amounts@[i].0@ == b.amounts@[i].0@ && a.amounts@[j].0@ == b.amounts@[j].0@);
            }
            assert forall|i: int, j: int| 0 <= i < j < b.receipt_ids@.len() implies bytes_lt(#[trigger] b.receipt_ids@[i]@, #[trigger] b.receipt_ids@[j]@) by {
                assert(a.receipt_ids@[i]@ == b.receipt_ids@[i]@ && a.receipt_ids@[j]@ == b.receipt_ids@[j]@);
            }
            assert forall|i: int, j: int| 0 <= i < j < b.tx_nonces@.len() implies pair_lt((#[trigger] b.tx_nonces@[i].0@, b.tx_nonces@[i].1), (#[trigger] b.tx_nonces@[j].0@, b.tx_nonces@[j].1)) by {
                assert(a.tx_nonces@[i].0@ == b.tx_nonces@[i].0@ && a.tx_nonces@[j].0@ == b.tx_nonces@[j].0@);
            }
        }
        if b.wf() {
            assert forall|i: int, j: int| 0 <= i < j < a.amounts@.len() implies bytes_lt(#[trigger] a.amounts@[i].0@, #[trigger] a.amounts@[j].0@) by {
                assert(a.amounts@[i].0@ == b.amounts@[i].0@ && a.amounts@[j].0@ == b.amounts@[j].0@);
            }
            assert forall|i: int, j: int| 0 <= i < j < a.receipt_ids@.len() implies bytes_lt(#[trigger] a.receipt_ids@[i]@, #[trigger] a.receipt_ids@[j]@) by {
                assert(a.receipt_ids@[i]@ == b.receipt_ids@[i]@ && a.receipt_ids@[j]@ == b.receipt_ids@[j]@);
            }
            assert forall|i: int, j: int| 0 <= i < j < a.tx_nonces@.len() implies pair_lt((#[trigger] a.tx_nonces@[i].0@, a.tx_nonces@[i].1), (#[trigger] a.tx_nonces@[j].0@, a.tx_nonces@[j].1)) by {
                assert(a.tx_nonces@[i].0@ == b.tx_nonces@[i].0@ && a.tx_nonces@[j].0@ == b.tx_nonces@[j].0@);
            }
        }
    }
    assert(a.wf() ==> a@.balances =~= b@.balances) by {
        assert forall|k: Seq<u8>| #[trigger] a@.balances.contains_key(k) == b@.balances.contains_key(k) by {
            if a@.balances.contains_key(k) {
                let i = choose|i: int| 0 <= i < a.amounts@.len() && a.amounts@[i].0@ == k;
                assert(b.amounts@[i].0@ == k);
            }
            if b@.balances.contains_key(k) {
                let i = choose|i: int| 0 <= i < b.amounts@.len() && b.amounts@[i].0@ == k;
                assert(a.amounts@[i].0@ == k);
            }
        }
        assert forall|k: Seq<u8>| a.wf() && #[trigger] a@.balances.contains_key(k) implies a@.balances[k] == b@.balances[k] by {
            let i = choose|i: int| 0 <= i < a.amounts@.len() && a.amounts@[i].0@ == k;
            let j = choose|j: int| 0 <= j < b.amounts@.len() && b.amounts@[j].0@ == k;
            if a.wf() {
                crate::snapshot::lemma_balance_at(a.amounts@, i);
                crate::snapshot::lemma_balance_at(b.amounts@, i);
            }
        }
    }
    assert(a@.receipts =~= b@.receipts) by {
        assert forall|k: Seq<u8>| #[trigger] a@.receipts.contains(k) == b@.receipts.contains(k) by {
            if a@.receipts.contains(k) {
                let i = choose|i: int| 0 <= i < a.receipt_ids@.len() && a.receipt_ids@[i]@ == k;
                assert(b.receipt_ids@[i]@ == k);
            }
            if b@.receipts.contains(k) {
                let i = choose|i: int| 0 <= i < b.receipt_ids@.len() && b.receipt_ids@[i]@ == k;
                assert(a.receipt_ids@[i]@ == k);
            }
        }
    }
    assert(a@.nonces =~= b@.nonces) by {
        assert forall|k: (Seq<u8>, u64)| #[trigger] a@.nonces.contains(k) == b@.nonces.contains(k) by {
            if a@.nonces.contains(k) {
                let i = choose|i: int| 0 <= i < a.tx_nonces@.len() && a.tx_nonces@[i].0@ == k.0 && a.tx_nonces@[i].1 == k.1;
                assert(b.tx_nonces@[i].0@ == k.0);
            }
            if b@.nonces.contains(k) {
                let i = choose|i: int| 0 <= i < b.tx_nonces@.len() && b.tx_nonces@[i].0@ == k.0 && b.tx_nonces@[i].1 == k.1;
                assert(a.tx_nonces@[i].0@ == k.0);
            }
        }
    }
}

/// A copy of a snapshot, entry by entry.
pub fn copy_snapshot(s: &Snapshot) -> (r: Snapshot)
    ensures
        same_form(r, *s),
{
    let mut a: Vec<(AccountId, u128)> = Vec::new();
    let mut i: usize = 0;
    while i < s.amounts.len()
        invariant
            0 <= i <= s.amounts@.len(),
            a@.len() == i,
            forall|j: int| 0 <= j < i ==> (#[trigger] a@[j]).0@ == s.amounts@[j].0@ && a@[j].1 == s.amounts@[j].1,
        decreases s.amounts@.len() - i,
    {
        a.push((s.amounts[i].0.duplicate(), s.amounts[i].1));
        i = i + 1;
    }
    let mut h: Vec<CryptoHash> = Vec::new();
    let mut i: usize = 0;
    while i < s.receipt_ids.len()
        invariant
            0 <= i <= s.receipt_ids@.len(),
            h@.len() == i,
            forall|j: int| 0 <= j < i ==> (#[trigger] h@[j])@ == s.receipt_ids@[j]@,
        decreases s.receipt_ids@.len() - i,
    {
        h.push(s.receipt_ids[i]);
        i = i + 1;
    }
    let mut n: Vec<(AccountId, u64)> = Vec::new();
    let mut i: usize = 0;
    while i < s.tx_nonces.len()
        invariant
            0 <= i <= s.tx_nonces@.len(),
            n@.len() == i,
            forall|j: int| 0 <= j < i ==> (#[trigger] n@[j]).0@ == s.tx_nonces@[j].0@ && n@[j].1 == s.tx_nonces@[j].1,
        decreases s.tx_nonces@.len() - i,
    {
        n.push((s.tx_nonces[i].0.duplicate(), s.tx_nonces[i].1));
        i = i + 1;
    }
    Snapshot { amounts: a, receipt_ids: h, tx_nonces: n }
}

pub open spec fn strictly_sorted<K>(s: Seq<K>, lt: spec_fn(K, K) -> bool) -> bool {
    forall|i: int, j: int| 0 <= i < j < s.len() ==> lt(#[trigger] s[i], #[trigger] s[j])
}

pub open spec fn strict_order<K>(lt: spec_fn(K, K) -> bool) -> bool {
    &&& forall|x: K| !#[trigger] lt(x, x)
    &&& forall|x: K, y: K, z: K| #[trigger] lt(x, y) && #[trigger] lt(y, z) ==> lt(x, z)
}

/// Two strictly sorted sequences that hold the same elements are equal.
proof fn lemma_sorted_unique<K>(a: Seq<K>, b: Seq<K>, lt: spec_fn(K, K) -> bool)
    requires
        strict_order(lt),
        strictly_sorted(a, lt),
        strictly_sorted(b, lt),
        forall|x: K| a.contains(x) == b.contains(x),
    ensures
        a == b,
    decreases a.len() + b.len(),
{
    if a.len() == 0 {
        if b.len() > 0 {
            assert(b.contains(b[0]));
        }
        assert(a =~= b);
    } else if b.len() == 0 {
        assert(a.contains(a[0]));
    } else {
        let ka = a.last();
        let kb = b.last();
        assert(a.contains(ka));
        assert(b.contains(kb));
        if ka != kb {
            let j = choose|j: int| 0 <= j < b.len() && b[j] == ka;
            let i = choose|i: int| 0 <= i < a.len() && a[i] == kb;
            assert(j < b.len() - 1 ==> lt(b[j], b[b.len() - 1]));
            assert(i < a.len() - 1 ==> lt(a[i], a[a.len() - 1]));
            assert(lt(ka, kb));
            assert(lt(kb, ka));
            assert(lt(ka, ka));
        }
        let a2 = a.drop_last();
        let b2 = b.drop_last();
        assert forall|x: K| a2.contains(x) == b2.contains(x) by {
            if a2.contains(x) {
                let i = choose|i: int| 0 <= i < a2.len() && a2[i] == x;
                assert(lt(a[i], a[a.len() - 1]));
                assert(a.contains(x));
                let j = choose|j: int| 0 <= j < b.len() && b[j] == x;
                if j == b.len() - 1 {
                    assert(lt(x, x));
                }
                assert(b2[j] == x);
            }
            if b2.contains(x) {
                let j = choose|j: int| 0 <= j < b2.len() && b2[j] == x;
                assert(lt(b[j], b[b.len() - 1]));
                assert(b.contains(x));
                let i = choose|i: int| 0 <= i < a.len() && a[i] == x;
                if i == a.len() - 1 {
                    assert(lt(x, x));
                }
                assert(a2[i] == x);
            }
        }
        lemma_sorted_unique(a2, b2, lt);
        assert(a =~= a2.push(ka));
        assert(b =~= b2.push(kb));
    }
}

proof fn lemma_bytes_order()
    ensures
        strict_order(|x: Seq<u8>, y: Seq<u8>| bytes_lt(x, y)),
{
    let lt = |x: Seq<u8>, y: Seq<u8>| bytes_lt(x, y);
    assert forall|x: Seq<u8>| !#[trigger] lt(x, x) by {
        crate::account::lemma_bytes_lt_irreflexive(x);
    }
    assert forall|x: Seq<u8>, y: Seq<u8>, z: Seq<u8>| #[trigger] lt(x, y) && #[trigger] lt(y, z) implies lt(x, z) by {
        crate::account::lemma_bytes_lt_transitive(x, y, z);
    }
}

proof fn lemma_pair_order()
    ensures
        strict_order(|x: (Seq<u8>, u64), y: (Seq<u8>, u64)| pair_lt(x, y)),
{
    let lt = |x: (Seq<u8>, u64), y: (Seq<u8>, u64)| pair_lt(x, y);
    assert forall|x: (Seq<u8>, u64)| !#[trigger] lt(x, x) by {
        crate::account::lemma_bytes_lt_irreflexive(x.0);
    }
    assert forall|x: (Seq<u8>, u64), y: (Seq<u8>, u64), z: (Seq<u8>, u64)| #[trigger] lt(x, y) && #[trigger] lt(y, z) implies lt(x, z) by {
        crate::account::lemma_bytes_lt_irreflexive(x.0);
        if bytes_lt(x.0, y.0) && bytes_lt(y.0, z.0) {
            crate::account::lemma_bytes_lt_transitive(x.0, y.0, z.0);
        }
    }
}

/// Well-formed snapshots with the same contents have the same form, so they
/// serialize to the same bytes and share a state root.
pub proof fn lemma_equal_contents_equal_bytes(a: Snapshot, b: Snapshot)
    requires
        a.wf(),
        b.wf(),
        a@ == b@,
    ensures
        same_form(a, b),
        snapshot_bytes(a) == snapshot_bytes(b),
        snapshot_encodable(a) == snapshot_encodable(b),
{
    let blt = |x: Seq<u8>, y: Seq<u8>| bytes_lt(x, y);
    let plt = |x: (Seq<u8>, u64), y: (Seq<u8>, u64)| pair_lt(x, y);
    lemma_bytes_order();
    lemma_pair_order();
    // balances
    let ka = a.amounts@.map_values(|e: (AccountId, u128)| e.0@);
    let kb = b.amounts@.map_values(|e: (AccountId, u128)| e.0@);
    assert forall|x: Seq<u8>| ka.contains(x) == kb.contains(x) by {
        if ka.contains(x) {
            let i = choose|i: int| 0 <= i < ka.len() && ka[i] == x;
            assert(a@.balances.contains_key(x));
            let j = choose|j: int| 0 <= j < b.amounts@.len() && b.amounts@[j].0@ == x;
            assert(kb[j] == x);
        }
        if kb.contains(x) {
            let j = choose|j: int| 0 <= j < kb.len() && kb[j] == x;
            assert(b@.balances.contains_key(x));
            let i = choose|i: int| 0 <= i < a.amounts@.len() && a.amounts@[i].0@ == x;
            assert(ka[i] == x);
        }
    }
    lemma_sorted_unique(ka, kb, blt);
    assert forall|i: int| 0 <= i < a.amounts@.len() implies (#[trigger] a.amounts@[i]).0@ == b.amounts@[i].0@
        && a.amounts@[i].1 == b.amounts@[i].1 by {
        assert(ka[i] == kb[i]);
        crate::snapshot::lemma_balance_at(a.amounts@, i);
        crate::snapshot::lemma_balance_at(b.amounts@, i);
    }
    // receipts
    let ha = a.receipt_ids@.map_values(|h: CryptoHash| h@);
    let hb = b.receipt_ids@.map_values(|h: CryptoHash| h@);
    assert forall|x: Seq<u8>| ha.contains(x) == hb.contains(x) by {
        if ha.contains(x) {
            let i = choose|i: int| 0 <= i < ha.len() && ha[i] == x;
            assert(a@.receipts.contains(x));
            let j = choose|j: int| 0 <= j < b.receipt_ids@.len() && b.receipt_ids@[j]@ == x;
            assert(hb[j] == x);
        }
        if hb.contains(x) {
            let j = choose|j: int| 0 <= j < hb.len() && hb[j] == x;
            assert(b@.receipts.contains(x));
            let i = choose|i: int| 0 <= i < a.receipt_ids@.len() && a.receipt_ids@[i]@ == x;
            assert(ha[i] == x);
        }
    }
    lemma_sorted_unique(ha, hb, blt);
    assert forall|i: int| 0 <= i < a.receipt_ids@.len() implies (#[trigger] a.receipt_ids@[i])@ == b.receipt_ids@[i]@ by {
        assert(ha[i] == hb[i]);
    }
    // nonces
    let na = a.tx_nonces@.map_values(|e: (AccountId, u64)| (e.0@, e.1));
    let nb = b.tx_nonces@.map_values(|e: (AccountId, u64)| (e.0@, e.1));
    assert forall|x: (Seq<u8>, u64)| na.contains(x) == nb.contains(x) by {
        if na.contains(x) {
            let i = choose|i: int| 0 <= i < na.len() && na[i] == x;
            assert(a@.nonces.contains(x));
            let j = choose|j: int| 0 <= j < b.tx_nonces@.len() && b.tx_nonces@[j].0@ == x.0 && b.tx_nonces@[j].1 == x.1;
            assert(nb[j] == x);
        }
        if nb.contains(x) {
            let j = choose|j: int| 0 <= j < nb.len() && nb[j] == x;
            assert(b@.nonces.contains(x));
            let i = choose|i: int| 0 <= i < a.tx_nonces@.len() && a.tx_nonces@[i].0@ == x.0 && a.tx_nonces@[i].1 == x.1;
            assert(na[i] == x);
        }
    }
    lemma_sorted_unique(na, nb, plt);
    assert forall|i: int| 0 <= i < a.tx_nonces@.len() implies (#[trigger] a.tx_nonces@[i]).0@ == b.tx_nonces@[i].0@
        && a.tx_nonces@[i].1 == b.tx_nonces@[i].1 by {
        assert(na[i] == nb[i]);
    }
    lemma_same_form_bytes(a, b);
}

/// 256 to the power `n`.
pub open spec fn pow256(n: nat) -> nat
    decreases n,
{
    if n == 0 {
        1
    } else {
        256 * pow256((n - 1) as nat)
    }
}

proof fn lemma_le_len(x: nat, n: nat)
    ensures
        le_bytes(x, n).len() == n,
    decreases n,
{
    if n > 0 {
        lemma_le_len(x / 256, (n - 1) as nat);
    }
}

/// Below `256^n`, the `n` low bytes determine the number.
proof fn lemma_le_inj(x: nat, y: nat, n: nat)
    requires
        x < pow256(n),
        y < pow256(n),
        le_bytes(x, n) == le_bytes(y, n),
    ensures
        x == y,
    decreases n,
{
    if n > 0 {
        let m = (n - 1) as nat;
        let p = pow256(m);
        assert(le_bytes(x, n)[0] == (x % 256) as u8);
        assert(le_bytes(y, n)[0] == (y % 256) as u8);
        assert(x % 256 == y % 256);
        assert(le_bytes(x / 256, m) =~= le_bytes(x, n).drop_first());
        assert(le_bytes(y / 256, m) =~= le_bytes(y, n).drop_first());
        assert(x / 256 < p) by (nonlinear_arith)
            requires
                x < 256 * p,
        ;
        assert(y / 256 < p) by (nonlinear_arith)
            requires
                y < 256 * p,
        ;
        lemma_le_inj(x / 256, y / 256, m);
    }
}

proof fn lemma_pow_values()
    ensures
        pow256(4) == 0x1_0000_0000,
        pow256(8) == 0x1_0000_0000_0000_0000,
        pow256(16) == 0x1_0000_0000_0000_0000_0000_0000_0000_0000,
{
    reveal_with_fuel(pow256, 17);
}

/// Equal concatenations with equal-length heads have equal heads and tails.
proof fn lemma_split(a1: Seq<u8>, r1: Seq<u8>, a2: Seq<u8>, r2: Seq<u8>)
    requires
        a1 + r1 == a2 + r2,
        a1.len() == a2.len(),
    ensures
        a1 == a2,
        r1 == r2,
{
    assert(a1 =~= (a1 + r1).subrange(0, a1.len() as int));
    assert(a2 =~= (a2 + r2).subrange(0, a2.len() as int));
    assert(r1 =~= (a1 + r1).subrange(a1.len() as int, (a1 + r1).len() as int));
    assert(r2 =~= (a2 + r2).subrange(a2.len() as int, (a2 + r2).len() as int));
}

/// A length prefix and the bytes after it determine the length.
proof fn lemma_split_len(n1: nat, r1: Seq<u8>, n2: nat, r2: Seq<u8>)
    requires
        enc_len(n1) + r1 == enc_len(n2) + r2,
        fits_u32(n1 as int),
        fits_u32(n2 as int),
    ensures
        n1 == n2,
        r1 == r2,
{
    lemma_le_len(n1, 4);
    lemma_le_len(n2, 4);
    lemma_pow_values();
    lemma_split(enc_len(n1), r1, enc_len(n2), r2);
    lemma_le_inj(n1, n2, 4);
}

/// A byte string with its length prefix, and what follows, split apart.
proof fn lemma_split_bytes(k1: Seq<u8>, r1: Seq<u8>, k2: Seq<u8>, r2: Seq<u8>)
    requires
        enc_bytes(k1) + r1 == enc_bytes(k2) + r2,
        fits_u32(k1.len() as int),
        fits_u32(k2.len() as int),
    ensures
        k1 == k2,
        r1 == r2,
{
    assert(enc_bytes(k1) + r1 =~= enc_len(k1.len()) + (k1 + r1));
    assert(enc_bytes(k2) + r2 =~= enc_len(k2.len()) + (k2 + r2));
    lemma_split_len(k1.len(), k1 + r1, k2.len(), k2 + r2);
    lemma_split(k1, r1, k2, r2);
}

pub open spec fn balance_names_fit(a: Seq<(AccountId, u128)>) -> bool {
    forall|i: int| 0 <= i < a.len() ==> fits_u32(#[trigger] a[i].0@.len() as int)
}

pub open spec fn nonce_names_fit(a: Seq<(AccountId, u64)>) -> bool {
    forall|i: int| 0 <= i < a.len() ==> fits_u32(#[trigger] a[i].0@.len() as int)
}

proof fn lemma_balances_inj(a: Seq<(AccountId, u128)>, r1: Seq<u8>, b: Seq<(AccountId, u128)>, r2: Seq<u8>)
    requires
        a.len() == b.len(),
        balance_names_fit(a),
        balance_names_fit(b),
        enc_balances(a) + r1 == enc_balances(b) + r2,
    ensures
        same_balances(a, b),
        r1 == r2,
    decreases a.len(),
{
    if a.len() == 0 {
        assert(enc_balances(a) + r1 =~= r1);
        assert(enc_balances(b) + r2 =~= r2);
    } else {
        let (ka, va) = (a[0].0@, a[0].1);
        let (kb, vb) = (b[0].0@, b[0].1);
        let ta = le_bytes(va as nat, 16) + (enc_balances(a.drop_first()) + r1);
        let tb = le_bytes(vb as nat, 16) + (enc_balances(b.drop_first()) + r2);
        assert(enc_balances(a) + r1 =~= enc_bytes(ka) + ta);
        assert(enc_balances(b) + r2 =~= enc_bytes(kb) + tb);
        lemma_split_bytes(ka, ta, kb, tb);
        lemma_le_len(va as nat, 16);
        lemma_le_len(vb as nat, 16);
        lemma_split(le_bytes(va as nat, 16), enc_balances(a.drop_first()) + r1, le_bytes(vb as nat, 16), enc_balances(b.drop_first()) + r2);
        lemma_pow_values();
        lemma_le_inj(va as nat, vb as nat, 16);
        assert(balance_names_fit(a.drop_first())) by {
            assert forall|i: int| 0 <= i < a.drop_first().len() implies fits_u32(#[trigger] a.drop_first()[i].0@.len() as int) by {
                assert(a.drop_first()[i] == a[i + 1]);
            }
        }
        assert(balance_names_fit(b.drop_first())) by {
            assert forall|i: int| 0 <= i < b.drop_first().len() implies fits_u32(#[trigger] b.drop_first()[i].0@.len() as int) by {
                assert(b.drop_first()[i] == b[i + 1]);
            }
        }
        lemma_balances_inj(a.drop_first(), r1, b.drop_first(), r2);
        assert forall|i: int| 0 <= i < a.len() implies (#[trigger] a[i]).0@ == b[i].0@ && a[i].1 == b[i].1 by {
            if i > 0 {
                assert(a.drop_first()[i - 1] == a[i]);
                assert(b.drop_first()[i - 1] == b[i]);
            }
        }
    }
}

proof fn lemma_hashes_inj(a: Seq<CryptoHash>, r1: Seq<u8>, b: Seq<CryptoHash>, r2: Seq<u8>)
    requires
        a.len() == b.len(),
        enc_hashes(a) + r1 == enc_hashes(b) + r2,
    ensures
        same_hashes(a, b),
        r1 == r2,
    decreases a.len(),
{
    broadcast use vstd::array::group_array_axioms;

    if a.len() == 0 {
        assert(enc_hashes(a) + r1 =~= r1);
        assert(enc_hashes(b) + r2 =~= r2);
    } else {
        assert(enc_hashes(a) + r1 =~= a[0]@ + (enc_hashes(a.drop_first()) + r1));
        assert(enc_hashes(b) + r2 =~= b[0]@ + (enc_hashes(b.drop_first()) + r2));
        assert(a[0]@.len() == 32 && b[0]@.len() == 32);
        lemma_split(a[0]@, enc_hashes(a.drop_first()) + r1, b[0]@, enc_hashes(b.drop_first()) + r2);
        lemma_hashes_inj(a.drop_first(), r1, b.drop_first(), r2);
        assert forall|i: int| 0 <= i < a.len() implies (#[trigger] a[i])@ == b[i]@ by {
            if i > 0 {
                assert(a.drop_first()[i - 1] == a[i]);
                assert(b.drop_first()[i - 1] == b[i]);
            }
        }
    }
}

proof fn lemma_nonces_inj(a: Seq<(AccountId, u64)>, r1: Seq<u8>, b: Seq<(AccountId, u64)>, r2: Seq<u8>)
    requires
        a.len() == b.len(),
        nonce_names_fit(a),
        nonce_names_fit(b),
        enc_nonces(a) + r1 == enc_nonces(b) + r2,
    ensures
        same_nonces(a, b),
        r1 == r2,
    decreases a.len(),
{
    if a.len() == 0 {
        assert(enc_nonces(a) + r1 =~= r1);
        assert(enc_nonces(b) + r2 =~= r2);
    } else {
        let (ka, va) = (a[0].0@, a[0].1);
        let (kb, vb) = (b[0].0@, b[0].1);
        let ta = le_bytes(va as nat, 8) + (enc_nonces(a.drop_first()) + r1);
        let tb = le_bytes(vb as nat, 8) + (enc_nonces(b.drop_first()) + r2);
        assert(enc_nonces(a) + r1 =~= enc_bytes(ka) + ta);
        assert(enc_nonces(b) + r2 =~= enc_bytes(kb) + tb);
        lemma_split_bytes(ka, ta, kb, tb);
        lemma_le_len(va as nat, 8);
        lemma_le_len(vb as nat, 8);
        lemma_split(le_bytes(va as nat, 8), enc_nonces(a.drop_first()) + r1, le_bytes(vb as nat, 8), enc_nonces(b.drop_first()) + r2);
        lemma_pow_values();
        lemma_le_inj(va as nat, vb as nat, 8);
        assert(nonce_names_fit(a.drop_first())) by {
            assert forall|i: int| 0 <= i < a.drop_first().len() implies fits_u32(#[trigger] a.drop_first()[i].0@.len() as int) by {
                assert(a.drop_first()[i] == a[i + 1]);
            }
        }
        assert(nonce_names_fit(b.drop_first())) by {
            assert forall|i: int| 0 <= i < b.drop_first().len() implies fits_u32(#[trigger] b.drop_first()[i].0@.len() as int) by {
                assert(b.drop_first()[i] == b[i + 1]);
            }
        }
        lemma_nonces_inj(a.drop_first(), r1, b.drop_first(), r2);
        assert forall|i: int| 0 <= i < a.len() implies (#[trigger] a[i]).0@ == b[i].0@ && a[i].1 == b[i].1 by {
            if i > 0 {
                assert(a.drop_first()[i - 1] == a[i]);
                assert(b.drop_first()[i - 1] == b[i]);
            }
        }
    }
}

/// The serialized form determines a snapshot's form: encodable snapshots
/// with the same bytes hold the same entries in the same order.
pub proof fn lemma_bytes_determine_form(a: Snapshot, b: Snapshot)
    requires
        snapshot_encodable(a),
        snapshot_encodable(b),
        snapshot_bytes(a) == snapshot_bytes(b),
    ensures
        same_form(a, b),
{
    let (x1, x2, x3) = (a.amounts@, a.receipt_ids@, a.tx_nonces@);
    let (y1, y2, y3) = (b.amounts@, b.receipt_ids@, b.tx_nonces@);
    let e = Seq::<u8>::empty();
    let ra3 = enc_nonces(x3) + e;
    let rb3 = enc_nonces(y3) + e;
    let ra2 = enc_hashes(x2) + (enc_len(x3.len()) + ra3);
    let rb2 = enc_hashes(y2) + (enc_len(y3.len()) + rb3);
    let ra1 = enc_balances(x1) + (enc_len(x2.len()) + ra2);
    let rb1 = enc_balances(y1) + (enc_len(y2.len()) + rb2);
    assert(snapshot_bytes(a) =~= enc_len(x1.len()) + ra1);
    assert(snapshot_bytes(b) =~= enc_len(y1.len()) + rb1);
    lemma_split_len(x1.len(), ra1, y1.len(), rb1);
    lemma_balances_inj(x1, enc_len(x2.len()) + ra2, y1, enc_len(y2.len()) + rb2);
    lemma_split_len(x2.len(), ra2, y2.len(), rb2);
    lemma_hashes_inj(x2, enc_len(x3.len()) + ra3, y2, enc_len(y3.len()) + rb3);
    lemma_split_len(x3.len(), ra3, y3.len(), rb3);
    lemma_nonces_inj(x3, e, y3, e);
}

/// The contents fit the serialized form: each table has fewer than 2^32
/// entries and every name is shorter than 2^32 bytes.
pub open spec fn ledger_fits(v: LedgerView) -> bool {
    &&& fits_u32(v.balances.dom().len() as int)
    &&& fits_u32(v.receipts.len() as int)
    &&& fits_u32(v.nonces.len() as int)
    &&& forall|k: Seq<u8>| #[trigger] v.balances.contains_key(k) ==> fits_u32(k.len() as int)
    &&& forall|p: (Seq<u8>, u64)| #[trigger] v.nonces.contains(p) ==> fits_u32(p.0.len() as int)
}

/// A well-formed snapshot can be serialized exactly when its contents fit.
pub proof fn lemma_encodable_iff_fits(s: Snapshot)
    requires
        s.wf(),
    ensures
        snapshot_encodable(s) == ledger_fits(s@),
{
    lemma_bytes_order();
    lemma_pair_order();
    let ka = s.amounts@.map_values(|e: (AccountId, u128)| e.0@);
    let ha = s.receipt_ids@.map_values(|h: CryptoHash| h@);
    let na = s.tx_nonces@.map_values(|e: (AccountId, u64)| (e.0@, e.1));
    assert(ka.no_duplicates()) by {
        assert forall|i: int, j: int| 0 <= i < ka.len() && 0 <= j < ka.len() && i != j implies ka[i] != ka[j] by {
            crate::account::lemma_bytes_lt_irreflexive(ka[i]);
            if i < j {
                assert(bytes_lt(s.amounts@[i].0@, s.amounts@[j].0@));
            } else {
                assert(bytes_lt(s.amounts@[j].0@, s.amounts@[i].0@));
            }
        }
    }
    assert(ha.no_duplicates()) by {
        assert forall|i: int, j: int| 0 <= i < ha.len() && 0 <= j < ha.len() && i != j implies ha[i] != ha[j] by {
            crate::account::lemma_bytes_lt_irreflexive(ha[i]);
            if i < j {
                assert(bytes_lt(s.receipt_ids@[i]@, s.receipt_ids@[j]@));
            } else {
                assert(bytes_lt(s.receipt_ids@[j]@, s.receipt_ids@[i]@));
            }
        }
    }
    assert(na.no_duplicates()) by {
        assert forall|i: int, j: int| 0 <= i < na.len() && 0 <= j < na.len() && i != j implies na[i] != na[j] by {
            crate::account::lemma_bytes_lt_irreflexive(na[i].0);
            if i < j {
                assert(pair_lt((s.tx_nonces@[i].0@, s.tx_nonces@[i].1), (s.tx_nonces@[j].0@, s.tx_nonces@[j].1)));
            } else {
                assert(pair_lt((s.tx_nonces@[j].0@, s.tx_nonces@[j].1), (s.tx_nonces@[i].0@, s.tx_nonces@[i].1)));
            }
        }
    }
    assert(ka.to_set() =~= s@.balances.dom()) by {
        assert forall|k: Seq<u8>| ka.to_set().contains(k) == s@.balances.dom().contains(k) by {
            if ka.contains(k) {
                let i = choose|i: int| 0 <= i < ka.len() && ka[i] == k;
                assert(s.amounts@[i].0@ == k);
            }
            if s@.balances.contains_key(k) {
                let i = choose|i: int| 0 <= i < s.amounts@.len() && s.amounts@[i].0@ == k;
                assert(ka[i] == k);
            }
        }
    }
    assert(ha.to_set() =~= s@.receipts) by {
        assert forall|k: Seq<u8>| ha.to_set().contains(k) == s@.receipts.contains(k) by {
            if ha.contains(k) {
                let i = choose|i: int| 0 <= i < ha.len() && ha[i] == k;
                assert(s.receipt_ids@[i]@ == k);
            }
            if s@.receipts.contains(k) {
                let i = choose|i: int| 0 <= i < s.receipt_ids@.len() && s.receipt_ids@[i]@ == k;
                assert(ha[i] == k);
            }
        }
    }
    assert(na.to_set() =~= s@.nonces) by {
        assert forall|k: (Seq<u8>, u64)| na.to_set().contains(k) == s@.nonces.contains(k) by {
            if na.contains(k) {
                let i = choose|i: int| 0 <= i < na.len() && na[i] == k;
                assert(s.tx_nonces@[i].0@ == k.0 && s.tx_nonces@[i].1 == k.1);
            }
            if s@.nonces.contains(k) {
                let i = choose|i: int| 0 <= i < s.tx_nonces@.len() && s.tx_nonces@[i].0@ == k.0 && s.tx_nonces@[i].1 == k.1;
                assert(na[i] == k);
            }
        }
    }
    ka.unique_seq_to_set();
    ha.unique_seq_to_set();
    na.unique_seq_to_set();
    if ledger_fits(s@) {
        assert forall|i: int| 0 <= i < s.amounts@.len() implies fits_u32(#[trigger] s.amounts@[i].0@.len() as int) by {
            assert(s@.balances.contains_key(s.amounts@[i].0@));
        }
        assert forall|i: int| 0 <= i < s.tx_nonces@.len() implies fits_u32(#[trigger] s.tx_nonces@[i].0@.len() as int) by {
            assert(s@.nonces.contains((s.tx_nonces@[i].0@, s.tx_nonces@[i].1)));
        }
    }
    if snapshot_encodable(s) {
        assert forall|k: Seq<u8>| #[trigger] s@.balances.contains_key(k) implies fits_u32(k.len() as int) by {
            let i = choose|i: int| 0 <= i < s.amounts@.len() && s.amounts@[i].0@ == k;
        }
        assert forall|p: (Seq<u8>, u64)| #[trigger] s@.nonces.contains(p) implies fits_u32(p.0.len() as int) by {
            let i = choose|i: int| 0 <= i < s.tx_nonces@.len() && s.tx_nonces@[i].0@ == p.0 && s.tx_nonces@[i].1 == p.1;
        }
    }
}

} // verus!
