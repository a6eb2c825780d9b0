//! Content hashes: 32-byte SHA-256 digests.
use sha2::Digest;
use vstd::prelude::*;

verus! {

/// A 32-byte content hash. The all-zero hash is the genesis sentinel.
#[derive(Clone, Copy, Debug)]
pub struct CryptoHash {
    pub bytes: [u8; 32],
}

impl View for CryptoHash {
    type V = Seq<u8>;

    open spec fn view(&self) -> Seq<u8> {
        self.bytes@
    }
}

impl PartialEq for CryptoHash {
    fn eq(&self, o: &CryptoHash) -> (r: bool) {
        proof {
            broadcast use vstd::array::group_array_axioms;
        }
        let mut i: usize = 0;
        while i < 32
            invariant
                0 <= i <= 32,
                self@.len() == 32,
                o@.len() == 32,
                forall|j: int| 0 <= j < i ==> self@[j] == o@[j],
            decreases 32 - i,
        {
            if self.bytes[i] != o.bytes[i] {
                return false;
            }
            i = i + 1;
        }
        assert(self@ =~= o@);
        true
    }
}

impl vstd::std_specs::cmp::PartialEqSpecImpl for CryptoHash {
    open spec fn obeys_eq_spec() -> bool {
        true
    }

    open spec fn eq_spec(&self, o: &CryptoHash) -> bool {
        self@ == o@
    }
}

impl Eq for CryptoHash {
}

/// The all-zero sequence of hash bytes.
pub open spec fn zero_bytes() -> Seq<u8> {
    Seq::new(32, |i: int| 0u8)
}

impl CryptoHash {
    /// The all-zero hash, used as the genesis sentinel and the empty state root.
    pub fn zero() -> (r: CryptoHash)
        ensures
            r@ == zero_bytes(),
    {
        let r = CryptoHash { bytes: [0u8; 32] };
        proof {
            broadcast use vstd::array::group_array_axioms;
            assert(r@ =~= zero_bytes());
        }
        r
    }

    pub fn is_zero(&self) -> (r: bool)
        ensures
            r == (self@ == zero_bytes()),
    {
        let z = CryptoHash::zero();
        *self == z
    }
}

/// The SHA-256 digest of a byte string.
pub uninterp spec fn sha256_of(data: Seq<u8>) -> Seq<u8>;

/// Relies on sha2::Sha256::digest: the 32-byte SHA-256 digest of `data`,
/// which depends on the bytes alone.
#[verifier::external_body]
fn sha256(data: &[u8]) -> (r: CryptoHash)
    ensures
        r@ == sha256_of(data@),
{
    CryptoHash { bytes: sha2::Sha256::digest(data).into() }
}

/// Hashes a byte string.
pub fn hash_bytes(data: &[u8]) -> (r: CryptoHash)
    ensures
        r@ == sha256_of(data@),
{
    sha256(data)
}

} // verus!
