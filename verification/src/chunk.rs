//! Content identifiers: the 32-byte BLAKE3 digest that names a stored object.

use vstd::prelude::*;

use crate::bytes::bytes_equal;

verus! {

/// The BLAKE3 digest of a byte string.
pub uninterp spec fn blake3_digest(data: Seq<u8>) -> [u8; 32];

/// The bytes of the BLAKE3 digest of `data`.
pub open spec fn digest(data: Seq<u8>) -> Seq<u8> {
    blake3_digest(data)@
}

/// `blake3::hash`: the 32-byte digest of `data`, named [`blake3_digest`]. What
/// the digest is on given bytes is left to the crate.
#[verifier::external_body]
fn blake3_hash(data: &[u8]) -> (r: [u8; 32])
    ensures
        r == blake3_digest(data@),
{
    *blake3::hash(data).as_bytes()
}

/// The 32 zero bytes: the id of nothing.
pub open spec fn zero_id() -> Seq<u8> {
    Seq::new(32, |i: int| 0u8)
}

/// The identifier of a stored object.
#[derive(Clone, Copy, Debug, Eq, Hash)]
pub struct ChunkId {
    pub bytes: [u8; 32],
}

impl View for ChunkId {
    type V = Seq<u8>;

    open spec fn view(&self) -> Seq<u8> {
        self.bytes@
    }
}

impl PartialEq for ChunkId {
    fn eq(&self, other: &ChunkId) -> (r: bool) {
        bytes_equal(self.bytes.as_slice(), other.bytes.as_slice())
    }
}

impl vstd::std_specs::cmp::PartialEqSpecImpl for ChunkId {
    open spec fn obeys_eq_spec() -> bool {
        true
    }

    open spec fn eq_spec(&self, other: &ChunkId) -> bool {
        self@ == other@
    }
}

impl ChunkId {
    pub fn new(bytes: [u8; 32]) -> (r: ChunkId)
        ensures
            r@ == bytes@,
            r@.len() == 32,
    {
        ChunkId { bytes }
    }

    /// The id that stands for "no object".
    pub fn zero() -> (r: ChunkId)
        ensures
            r@ == zero_id(),
    {
        let r = ChunkId { bytes: [0u8; 32] };
        assert(r@ =~= zero_id());
        r
    }

    /// The id of the object with these bytes.
    pub fn of(data: &[u8]) -> (r: ChunkId)
        ensures
            r@ == digest(data@),
            r@.len() == 32,
    {
        ChunkId { bytes: blake3_hash(data) }
    }

    pub fn is_zero(&self) -> (r: bool)
        ensures
            r == (self@ == zero_id()),
    {
        *self == ChunkId::zero()
    }

    pub fn as_bytes(&self) -> (r: &[u8; 32])
        ensures
            r@ == self@,
    {
        &self.bytes
    }

    pub fn as_slice(&self) -> (r: &[u8])
        ensures
            r@ == self@,
            r@.len() == 32,
    {
        self.bytes.as_slice()
    }

    /// The id held in a 32-byte string.
    pub fn from_slice(b: &[u8]) -> (r: ChunkId)
        requires
            b@.len() == 32,
        ensures
            r@ == b@,
    {
        let mut bytes: [u8; 32] = [0u8; 32];
        let mut i: usize = 0;
        while i < 32
            invariant
                i <= 32,
                b@.len() == 32,
                forall|j: int| 0 <= j < i ==> bytes@[j] == b@[j],
            decreases 32 - i,
        {
            bytes[i] = b[i];
            i += 1;
        }
        assert(bytes@ =~= b@);
        ChunkId { bytes }
    }
}

} // verus!
