//! Keyed structural hashing for subtree identity, and root handles.

use vstd::prelude::*;
use crate::bytes::{le_bytes, push_le};
use crate::primitives::{blake2b_512, blake2b_512_bytes};
use crate::state::LtHash;

verus! {

/// A 256-bit structural hash for trie nodes.
///
/// This is the storage key of a node, and lets identical subtrees be skipped
/// across tries.
pub type StructuralHash = [u8; 32];

/// A 32-byte state-group identifier derived from the full root lattice.
///
/// This is the cross-server, deduplicable identifier for a resolved root. It
/// must not be confused with the local-only `StructuralHash`.
pub type StateGroupId = [u8; 32];

/// The bytes that a keyed hash runs over: the length of the key, the key, the data.
pub open spec fn keyed_input(key: Seq<u8>, data: Seq<u8>) -> Seq<u8> {
    le_bytes(key.len(), 8) + key + data
}

/// The keyed structural hash of some data.
pub open spec fn keyed_hash(key: Seq<u8>, data: Seq<u8>) -> Seq<u8> {
    blake2b_512_bytes(keyed_input(key, data)).take(32)
}

/// Collects the bytes of a keyed structural hash.
pub struct StructuralHashBuilder {
    pub input: Vec<u8>,
}

impl StructuralHashBuilder {
    /// Starts a hash under a key.
    pub fn new(key: &[u8]) -> (builder: Self)
        ensures
            builder.input@ == keyed_input(key@, Seq::empty()),
    {
        let mut input: Vec<u8> = Vec::new();
        push_le(&mut input, key.len() as u128, 8);
        input.extend_from_slice(key);
        proof {
            assert(input@ =~= keyed_input(key@, Seq::empty()));
        }
        StructuralHashBuilder { input }
    }

    /// Adds bytes to the data.
    pub fn write(&mut self, bytes: &[u8])
        ensures
            final(self).input@ == old(self).input@ + bytes@,
    {
        let ghost start = self.input@;
        self.input.extend_from_slice(bytes);
        proof {
            assert(self.input@ =~= start + bytes@);
        }
    }

    /// The first 32 bytes of the digest.
    pub fn finalize(self) -> (hash: StructuralHash)
        ensures
            hash@ == blake2b_512_bytes(self.input@).take(32),
    {
        let wide: [u8; 64] = blake2b_512(self.input.as_slice());
        truncate_digest(&wide)
    }
}

/// Computes the keyed structural hash of some data.
pub(crate) fn structural_hash_of(key: &[u8], data: &Vec<u8>) -> (hash: StructuralHash)
    ensures
        hash@ == keyed_hash(key@, data@),
{
    let mut builder: StructuralHashBuilder = StructuralHashBuilder::new(key);
    builder.write(data.as_slice());
    proof {
        assert(builder.input@ =~= keyed_input(key@, data@));
    }
    builder.finalize()
}

/// The first half of a wide digest.
pub fn truncate_digest(wide: &[u8; 64]) -> (hash: StructuralHash)
    ensures
        hash@ == wide@.take(32),
{
    let mut hash: StructuralHash = [0; 32];
    let mut index: usize = 0;
    while index < 32
        invariant
            index <= 32,
            forall|i: int| 0 <= i < index ==> hash@[i] == wide@[i],
        decreases 32 - index,
    {
        hash[index] = wide[index];
        index = index + 1;
    }
    proof {
        assert(hash@ =~= wide@.take(32));
    }
    hash
}

/// Whether two hashes are equal.
pub(crate) fn same_hash(a: &StructuralHash, b: &StructuralHash) -> (result: bool)
    ensures
        result == (a@ == b@),
{
    let mut index: usize = 0;
    while index < 32
        invariant
            index <= 32,
            forall|i: int| 0 <= i < index ==> a@[i] == b@[i],
        decreases 32 - index,
    {
        if a[index] != b[index] {
            return false;
        }
        index = index + 1;
    }
    proof {
        assert(a@ =~= b@);
    }
    true
}

/// A resolved root handle carrying both the local structural hash and the
/// global state-group identifier.
#[derive(Clone, Debug, PartialEq, Eq)]
pub struct RootHandle {
    pub structural_hash: StructuralHash,
    pub state_group_id: StateGroupId,
}

impl RootHandle {
    /// Builds a root handle from a precomputed structural hash and a state
    /// lattice.
    #[must_use]
    pub fn from_lthash(structural_hash: StructuralHash, lattice: &LtHash) -> (handle: Self)
        ensures
            handle.structural_hash == structural_hash,
            handle.state_group_id@ == lattice.checksum_bytes(),
    {
        RootHandle { structural_hash, state_group_id: state_group_id_from_lthash(lattice) }
    }
}

/// Computes the 32-byte state-group identifier from the full resolved lattice.
///
/// This uses the lattice checksum, which is `BLAKE2b-256(lattice)`.
#[must_use]
pub fn state_group_id_from_lthash(lattice: &LtHash) -> (id: StateGroupId)
    ensures
        id@ == lattice.checksum_bytes(),
{
    lattice.checksum()
}

} // verus!
