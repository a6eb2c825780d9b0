//! Account identifiers, their byte order, and their fixed shard assignment.
use crate::hash::{hash_bytes, sha256_of, CryptoHash};
use vstd::prelude::*;
use vstd::string::StringSliceAdditionalSpecFns;

verus! {

/// An account identifier, held as its UTF-8 bytes.
#[derive(Debug)]
pub struct AccountId {
    pub bytes: Vec<u8>,
}

impl View for AccountId {
    type V = Seq<u8>;

    open spec fn view(&self) -> Seq<u8> {
        self.bytes@
    }
}

/// Lexicographic order on byte strings, the order of `str` and `[u8]` in std.
pub open spec fn bytes_lt(a: Seq<u8>, b: Seq<u8>) -> bool
    decreases a.len(),
{
    if b.len() == 0 {
        false
    } else if a.len() == 0 {
        true
    } else if a[0] != b[0] {
        a[0] < b[0]
    } else {
        bytes_lt(a.drop_first(), b.drop_first())
    }
}

/// Lexicographic order is irreflexive.
pub proof fn lemma_bytes_lt_irreflexive(a: Seq<u8>)
    ensures
        !bytes_lt(a, a),
    decreases a.len(),
{
    if a.len() > 0 {
        lemma_bytes_lt_irreflexive(a.drop_first());
    }
}

/// Lexicographic order is transitive.
pub proof fn lemma_bytes_lt_transitive(a: Seq<u8>, b: Seq<u8>, c: Seq<u8>)
    requires
        bytes_lt(a, b),
        bytes_lt(b, c),
    ensures
        bytes_lt(a, c),
    decreases a.len(),
{
    if a.len() > 0 && b.len() > 0 && c.len() > 0 && a[0] == b[0] && b[0] == c[0] {
        lemma_bytes_lt_transitive(a.drop_first(), b.drop_first(), c.drop_first());
    }
}

/// Lexicographic order is total.
pub proof fn lemma_bytes_lt_total(a: Seq<u8>, b: Seq<u8>)
    ensures
        a == b || bytes_lt(a, b) || bytes_lt(b, a),
    decreases a.len(),
{
    if a.len() > 0 && b.len() > 0 && a[0] == b[0] {
        lemma_bytes_lt_total(a.drop_first(), b.drop_first());
        if a.drop_first() == b.drop_first() {
            assert(a =~= seq![a[0]] + a.drop_first());
            assert(b =~= seq![b[0]] + b.drop_first());
        }
    } else if a.len() == 0 && b.len() == 0 {
        assert(a =~= b);
    }
}

/// Compares two byte strings lexicographically.
pub fn bytes_less(a: &[u8], b: &[u8]) -> (r: bool)
    ensures
        r == bytes_lt(a@, b@),
{
    let mut i: usize = 0;
    assert(a@.subrange(0, a@.len() as int) =~= a@);
    assert(b@.subrange(0, b@.len() as int) =~= b@);
    while i < a.len() && i < b.len()
        invariant
            0 <= i <= a@.len(),
            i <= b@.len(),
            a@.subrange(0, i as int) == b@.subrange(0, i as int),
            bytes_lt(a@, b@) == bytes_lt(a@.subrange(i as int, a@.len() as int), b@.subrange(i as int, b@.len() as int)),
        decreases a@.len() - i,
    {
        let x = a[i];
        let y = b[i];
        let ghost sa = a@.subrange(i as int, a@.len() as int);
        let ghost sb = b@.subrange(i as int, b@.len() as int);
        assert(sa[0] == x && sb[0] == y);
        if x != y {
            return x < y;
        }
        assert(sa.drop_first() =~= a@.subrange(i + 1, a@.len() as int));
        assert(sb.drop_first() =~= b@.subrange(i + 1, b@.len() as int));
        assert(a@.subrange(0, i + 1) =~= a@.subrange(0, i as int).push(x));
        assert(b@.subrange(0, i + 1) =~= b@.subrange(0, i as int).push(y));
        i = i + 1;
    }
    i < b.len()
}

/// Compares two byte strings for equality.
pub fn bytes_equal(a: &[u8], b: &[u8]) -> (r: bool)
    ensures
        r == (a@ == b@),
{
    if a.len() != b.len() {
        return false;
    }
    let mut i: usize = 0;
    while i < a.len()
        invariant
            0 <= i <= a@.len(),
            a@.len() == b@.len(),
            forall|j: int| 0 <= j < i ==> a@[j] == b@[j],
        decreases a@.len() - i,
    {
        if a[i] != b[i] {
            return false;
        }
        i = i + 1;
    }
    assert(a@ =~= b@);
    true
}

impl PartialEq for AccountId {
    fn eq(&self, o: &AccountId) -> (r: bool) {
        bytes_equal(self.bytes.as_slice(), o.bytes.as_slice())
    }
}

impl vstd::std_specs::cmp::PartialEqSpecImpl for AccountId {
    open spec fn obeys_eq_spec() -> bool {
        true
    }

    open spec fn eq_spec(&self, o: &AccountId) -> bool {
        self@ == o@
    }
}

impl Eq for AccountId {
}

impl AccountId {
    /// The account named by `s`.
    pub fn new(s: &str) -> (r: AccountId)
        ensures
            r@ == s.spec_bytes(),
    {
        AccountId { bytes: vstd::slice::slice_to_vec(s.as_bytes()) }
    }

    /// The account whose name has the bytes `b`.
    pub fn from_bytes(b: &[u8]) -> (r: AccountId)
        ensures
            r@ == b@,
    {
        AccountId { bytes: vstd::slice::slice_to_vec(b) }
    }

    pub fn as_bytes(&self) -> (r: &[u8])
        ensures
            r@ == self@,
    {
        self.bytes.as_slice()
    }

    /// A copy of this identifier.
    pub fn duplicate(&self) -> (r: AccountId)
        ensures
            r@ == self@,
    {
        AccountId { bytes: vstd::slice::slice_to_vec(self.bytes.as_slice()) }
    }

    pub fn less_than(&self, o: &AccountId) -> (r: bool)
        ensures
            r == bytes_lt(self@, o@),
    {
        bytes_less(self.bytes.as_slice(), o.bytes.as_slice())
    }

    pub fn same_as(&self, o: &AccountId) -> (r: bool)
        ensures
            r == (self@ == o@),
    {
        bytes_equal(self.bytes.as_slice(), o.bytes.as_slice())
    }
}

/// The integer that eight bytes spell in little-endian order.
pub open spec fn le_u64_of(b: Seq<u8>) -> int {
    b[0] as int + b[1] as int * 0x100 + b[2] as int * 0x1_0000 + b[3] as int * 0x100_0000
        + b[4] as int * 0x1_0000_0000 + b[5] as int * 0x100_0000_0000
        + b[6] as int * 0x1_0000_0000_0000 + b[7] as int * 0x100_0000_0000_0000
}

/// The shard that owns an account: the first eight bytes of the SHA-256 digest
/// of the account's name, read as a little-endian integer, modulo the shard count.
pub open spec fn shard_of(account: Seq<u8>, num_shards: u64) -> u64
    recommends
        num_shards > 0,
{
    (le_u64_of(sha256_of(account)) % (num_shards as int)) as u64
}

fn le_u64(h: &CryptoHash) -> (r: u64)
    ensures
        r == le_u64_of(h@),
{
    proof {
        broadcast use vstd::array::group_array_axioms;
    }
    let b = &h.bytes;
    (b[0] as u64) + (b[1] as u64) * 0x100 + (b[2] as u64) * 0x1_0000 + (b[3] as u64) * 0x100_0000
        + (b[4] as u64) * 0x1_0000_0000 + (b[5] as u64) * 0x100_0000_0000
        + (b[6] as u64) * 0x1_0000_0000_0000 + (b[7] as u64) * 0x100_0000_0000_0000
}

/// The shard that owns `account_id` under the fixed single-version layout of
/// `num_shards` shards.
pub fn account_id_to_shard_id(account_id: &AccountId, num_shards: u64) -> (r: u64)
    requires
        num_shards > 0,
    ensures
        r == shard_of(account_id@, num_shards),
        r < num_shards,
{
    let h = hash_bytes(account_id.as_bytes());
    le_u64(&h) % num_shards
}

} // verus!
