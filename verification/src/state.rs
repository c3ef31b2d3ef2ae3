//! The homomorphic lattice hash of a resolved state.

use vstd::prelude::*;
use crate::bytes::{be_bytes_len, byte_range_values, le_bytes, le_value, le_value_of_bytes, push_le};
use crate::primitives::{blake2b_256, blake2b_256_bytes};

verus! {

/// A lattice of 1024 lanes, one sum per lane.
#[derive(Clone, Debug, PartialEq, Eq)]
pub struct LtHash(pub [u16; 1024]);

impl Default for LtHash {
    fn default() -> (lattice: Self)
        ensures
            forall|i: int| 0 <= i < 1024 ==> lattice.0@[i] == 0,
    {
        LtHash([0; 1024])
    }
}

/// The lanes as bytes, each least significant byte first.
pub open spec fn lane_bytes(lanes: Seq<u16>, n: nat) -> Seq<u8>
    decreases n,
{
    if n == 0 {
        Seq::empty()
    } else {
        lane_bytes(lanes, (n - 1) as nat) + le_bytes(lanes[n - 1] as nat, 2)
    }
}

impl LtHash {
    /// The checksum as a sequence of bytes.
    pub open spec fn checksum_bytes(&self) -> Seq<u8> {
        blake2b_256_bytes(lane_bytes(self.0@, 1024))
    }

    /// The `BLAKE2b-256` digest of the lattice.
    pub fn checksum(&self) -> (digest: [u8; 32])
        ensures
            digest@ == self.checksum_bytes(),
    {
        let mut bytes: Vec<u8> = Vec::new();
        let mut index: usize = 0;
        while index < 1024
            invariant
                index <= 1024,
                bytes@ == lane_bytes(self.0@, index as nat),
            decreases 1024 - index,
        {
            push_le(&mut bytes, self.0[index] as u128, 2);
            index = index + 1;
        }
        blake2b_256(bytes.as_slice())
    }

    /// Whether two lattices are equal.
    pub fn same(&self, other: &Self) -> (result: bool)
        ensures
            result == (self.0@ == other.0@),
    {
        let mut index: usize = 0;
        while index < 1024
            invariant
                index <= 1024,
                forall|i: int| 0 <= i < index ==> self.0@[i] == other.0@[i],
            decreases 1024 - index,
        {
            if self.0[index] != other.0[index] {
                return false;
            }
            index = index + 1;
        }
        proof {
            assert(self.0@ =~= other.0@);
        }
        true
    }
}

/// The lanes are written in two bytes each, the least significant one first.
pub proof fn lanes_as_bytes(lanes: Seq<u16>, n: nat, i: int)
    requires
        n <= lanes.len(),
        0 <= i < n,
    ensures
        lane_bytes(lanes, n).len() == 2 * n,
        le_value(lane_bytes(lanes, n).subrange(2 * i, 2 * i + 2)) == lanes[i],
    decreases n,
{
    let before = lane_bytes(lanes, (n - 1) as nat);
    let bytes = lane_bytes(lanes, n);
    lanes_sized(lanes, (n - 1) as nat);
    be_bytes_len(lanes[n - 1] as nat, 2);
    byte_range_values();
    le_value_of_bytes(lanes[n - 1] as nat, 2);
    if i < n - 1 {
        lanes_as_bytes(lanes, (n - 1) as nat, i);
        assert(bytes.subrange(2 * i, 2 * i + 2) =~= before.subrange(2 * i, 2 * i + 2));
    } else {
        assert(bytes.subrange(2 * i, 2 * i + 2) =~= le_bytes(lanes[n - 1] as nat, 2));
    }
}

proof fn lanes_sized(lanes: Seq<u16>, n: nat)
    ensures
        lane_bytes(lanes, n).len() == 2 * n,
    decreases n,
{
    if n > 0 {
        lanes_sized(lanes, (n - 1) as nat);
        be_bytes_len(lanes[n - 1] as nat, 2);
    }
}

} // verus!
