//! Persisted trie nodes.

use vstd::prelude::*;
use vstd::slice::slice_subrange;
use super::bitmap::{map_index, rank, rank_bound};
use super::codec::HamtCodec;
use super::hash::{keyed_hash, same_hash, StructuralHash};
use super::node::{
    encode_node_parts, encoded_node, hash_bytes, hash_views, leaf_bytes, leaf_bytes_agree,
    leaves_encodable, node_digest, node_domain, parts_fit, ref_hash, ref_hashes, HamtNode, NodeRef,
    HAMT_WIRE_VERSION,
};
use super::read::clone_keeps;
use super::slots::{clone_leaves, same_leaf, same_leaves};
use crate::bytes::{
    byte_range, byte_range_values, le_bytes, le_bytes_of_value, le_value, le_value_of_bytes,
    read_le_u64,
};

verus! {

/// Wire version of the first persisted-node layout, which used 16-byte
/// structural hashes.
///
/// The layout change from 16- to 32-byte hashes is not recoverable from the
/// bytes alone, so such records are rejected explicitly instead of being
/// silently misparsed.
pub const LEGACY_WIRE_VERSION_16_BYTE_HASHES: u8 = 0x01;

/// A representation of an internal node that is safe to persist to disk.
///
/// Leaves are stored inline as `(K, V)` pairs in datamap order, while child
/// references are stored separately in nodemap order.
#[derive(Clone, Debug, PartialEq, Eq)]
pub struct PersistedInternalNode<K, V> {
    pub datamap: u32,
    pub nodemap: u32,
    pub leaves: Vec<(K, V)>,
    pub child_hashes: Vec<StructuralHash>,
}

/// The bytes of a node under a wire version.
pub open spec fn layout<K: HamtCodec, V: HamtCodec>(
    version: u8,
    datamap: u32,
    nodemap: u32,
    leaves: Seq<(K, V)>,
    hashes: Seq<Seq<u8>>,
) -> Seq<u8> {
    seq![version] + le_bytes(datamap as nat, 4) + le_bytes(nodemap as nat, 4) + le_bytes(
        leaves.len(),
        4,
    ) + le_bytes(hashes.len(), 4) + leaf_bytes(leaves) + hash_bytes(hashes)
}

/// A number of the header.
pub open spec fn header_word(buf: Seq<u8>, start: int) -> nat {
    le_value(buf.subrange(start, start + 4))
}

/// Where reading some leaves from a cursor ends, and what is wrong with them.
pub open spec fn parse_leaves<K: HamtCodec, V: HamtCodec>(
    buf: Seq<u8>,
    cursor: nat,
    count: nat,
) -> (nat, Option<Seq<char>>)
    decreases count,
{
    if count == 0 {
        (cursor, None)
    } else {
        let before = parse_leaves::<K, V>(buf, cursor, (count - 1) as nat);
        if before.1 is Some {
            before
        } else {
            let key = K::parse(buf, before.0);
            if key.1 is Some {
                key
            } else {
                V::parse(buf, key.0)
            }
        }
    }
}

/// What is wrong with the bytes of a node after its version byte.
pub open spec fn layout_error<K: HamtCodec, V: HamtCodec>(buf: Seq<u8>, width: nat) -> Option<
    Seq<char>,
> {
    if buf.len() < 17 {
        Some("Buffer too short for v1 header"@)
    } else if (header_word(buf, 1) as u32) & (header_word(buf, 5) as u32) != 0 {
        Some("Datamap and nodemap overlap: node is corrupt"@)
    } else if header_word(buf, 9) != rank(header_word(buf, 1) as u32, 32) {
        Some("Leaf count does not match datamap"@)
    } else if header_word(buf, 13) != rank(header_word(buf, 5) as u32, 32) {
        Some("Child count does not match nodemap"@)
    } else {
        let leaves = parse_leaves::<K, V>(buf, 17, header_word(buf, 9));
        let total = leaves.0 + width * header_word(buf, 13);
        if leaves.1 is Some {
            leaves.1
        } else if total > usize::MAX {
            Some("Child hash payload size overflows usize"@)
        } else if buf.len() < total {
            Some("Buffer too short for child hashes"@)
        } else if buf.len() > total {
            Some("Buffer contains trailing bytes"@)
        } else {
            None
        }
    }
}

/// What is wrong with the bytes of a node.
pub open spec fn decode_error<K: HamtCodec, V: HamtCodec>(buf: Seq<u8>) -> Option<Seq<char>> {
    if buf.len() > 0 && buf[0] == HAMT_WIRE_VERSION {
        layout_error::<K, V>(buf, 32)
    } else if buf.len() > 0 && buf[0] == LEGACY_WIRE_VERSION_16_BYTE_HASHES {
        Some(
            "Legacy v1 node (16-byte structural hashes) is unsupported; re-persist or migrate before decoding"@,
        )
    } else {
        Some("Invalid version byte"@)
    }
}

/// What is wrong with the bytes of a node with short hashes.
pub open spec fn legacy_error<K: HamtCodec, V: HamtCodec>(buf: Seq<u8>) -> Option<Seq<char>> {
    if buf.len() > 0 && buf[0] == LEGACY_WIRE_VERSION_16_BYTE_HASHES {
        layout_error::<K, V>(buf, 16)
    } else {
        Some("Invalid version byte"@)
    }
}

/// The first bytes of each hash.
pub open spec fn short_hashes(hashes: Seq<Seq<u8>>, width: int) -> Seq<Seq<u8>> {
    Seq::new(hashes.len(), |i: int| hashes[i].take(width))
}

/// The rest of each hash is zero.
pub open spec fn zero_tails(hashes: Seq<Seq<u8>>, width: int) -> bool {
    forall|i: int, j: int|
        0 <= i < hashes.len() && width <= j < 32 ==> #[trigger] hashes[i][j] == 0
}

/// Each leaf has the bytes that stand for it.
pub open spec fn leaves_read<K: HamtCodec, V: HamtCodec>(
    buf: Seq<u8>,
    leaves: Seq<(K, V)>,
) -> bool {
    forall|i: int|
        0 <= i < leaves.len() ==> {
            let start = parse_leaves::<K, V>(buf, 17, i as nat).0;
            let middle = K::parse(buf, start).0;
            let end = V::parse(buf, middle).0;
            &&& (#[trigger] leaves[i]).0.encoding() == buf.subrange(start as int, middle as int)
            &&& leaves[i].1.encoding() == buf.subrange(middle as int, end as int)
        }
}

/// Where reading leaves failed once it stays failed.
proof fn parse_leaves_fails<K: HamtCodec, V: HamtCodec>(
    buf: Seq<u8>,
    cursor: nat,
    n: nat,
    count: nat,
)
    requires
        n <= count,
        parse_leaves::<K, V>(buf, cursor, n).1 is Some,
    ensures
        parse_leaves::<K, V>(buf, cursor, count) == parse_leaves::<K, V>(buf, cursor, n),
    decreases count,
{
    if n < count {
        parse_leaves_fails::<K, V>(buf, cursor, n, (count - 1) as nat);
    }
}

/// Reads the leaves of a node.
#[verifier::spinoff_prover]
fn read_leaves<K: HamtCodec, V: HamtCodec>(buf: &[u8], count: usize) -> (result: Result<
    (Vec<(K, V)>, usize),
    &'static str,
>)
    requires
        buf@.len() >= 17,
    ensures
        match result {
            Ok((leaves, cursor)) => {
                &&& leaves@.len() == count
                &&& 17 <= cursor <= buf@.len()
                &&& parse_leaves::<K, V>(buf@, 17, count as nat) == (
                    cursor as nat,
                    None::<Seq<char>>,
                )
                &&& leaf_bytes(leaves@) == buf@.subrange(17, cursor as int)
                &&& leaves_encodable(leaves@)
                &&& leaves_read(buf@, leaves@)
            },
            Err(message) => parse_leaves::<K, V>(buf@, 17, count as nat).1 == Some(message@),
        },
{
    let mut cursor: usize = 17;
    let mut leaves: Vec<(K, V)> = Vec::new();
    proof {
        assert(leaf_bytes(leaves@) =~= Seq::<u8>::empty());
        assert(buf@.subrange(17, 17) =~= Seq::<u8>::empty());
    }
    while leaves.len() < count
        invariant
            leaves@.len() <= count,
            17 <= cursor <= buf@.len(),
            cursor == parse_leaves::<K, V>(buf@, 17, leaves@.len()).0,
            parse_leaves::<K, V>(buf@, 17, leaves@.len()).1 is None,
            leaf_bytes(leaves@) == buf@.subrange(17, cursor as int),
            leaves_encodable(leaves@),
            leaves_read(buf@, leaves@),
        decreases count - leaves.len(),
    {
        let ghost start = cursor as int;
        let ghost before = leaves@;
        let ghost taken = leaves@.len();
        let key: K = match K::decode_hamt(buf, &mut cursor) {
            Ok(key) => key,
            Err(message) => {
                proof {
                    parse_leaves_fails::<K, V>(buf@, 17, (taken + 1) as nat, count as nat);
                }
                return Err(message);
            },
        };
        let ghost middle = cursor as int;
        let value: V = match V::decode_hamt(buf, &mut cursor) {
            Ok(value) => value,
            Err(message) => {
                proof {
                    parse_leaves_fails::<K, V>(buf@, 17, (taken + 1) as nat, count as nat);
                }
                return Err(message);
            },
        };
        leaves.push((key, value));
        proof {
            assert(leaves@.drop_last() =~= before);
            assert(buf@.subrange(17, cursor as int) =~= buf@.subrange(17, start) + buf@.subrange(
                start,
                middle,
            ) + buf@.subrange(middle, cursor as int));
        }
    }
    Ok((leaves, cursor))
}

/// Reads a hash of a width, with zeros behind it.
fn read_hash(buf: &[u8], start: usize, width: usize) -> (hash: StructuralHash)
    requires
        width <= 32,
        start + width <= buf@.len(),
    ensures
        hash@.take(width as int) == buf@.subrange(start as int, start + width),
        forall|i: int| width <= i < 32 ==> hash@[i] == 0,
{
    let mut hash: StructuralHash = [0u8;32];
    let mut index: usize = 0;
    while index < width
        invariant
            index <= width <= 32,
            start + width <= buf@.len(),
            buf@.len() == buf.len(),
            forall|i: int| 0 <= i < index ==> hash@[i] == buf@[start + i],
            forall|i: int| index <= i < 32 ==> hash@[i] == 0,
        decreases width - index,
    {
        hash[index] = buf[start + index];
        index = index + 1;
    }
    proof {
        assert(hash@.take(width as int) =~= buf@.subrange(start as int, start + width));
    }
    hash
}

/// Reads the child hashes at the end of a node's bytes.
#[verifier::spinoff_prover]
fn read_hashes(buf: &[u8], body: usize, count: usize, width: usize) -> (hashes: Vec<
    StructuralHash,
>)
    requires
        width == 16 || width == 32,
        count <= 32,
        buf@.len() == body + count * width,
    ensures
        hashes@.len() == count,
        zero_tails(hash_views(hashes@), width as int),
        hash_bytes(short_hashes(hash_views(hashes@), width as int)) == buf@.subrange(
            body as int,
            buf@.len() as int,
        ),
{
    let mut cursor: usize = body;
    let mut hashes: Vec<StructuralHash> = Vec::new();
    proof {
        assert(short_hashes(hash_views(hashes@), width as int) =~= Seq::<Seq<u8>>::empty());
        assert(buf@.subrange(body as int, body as int) =~= Seq::<u8>::empty());
        assert(count * width >= 0) by (nonlinear_arith);
    }
    while hashes.len() < count
        invariant
            width == 16 || width == 32,
            hashes@.len() <= count <= 32,
            buf@.len() == body + count * width,
            cursor == body + hashes@.len() * width,
            cursor <= buf.len(),
            buf@.len() == buf.len(),
            zero_tails(hash_views(hashes@), width as int),
            hash_bytes(short_hashes(hash_views(hashes@), width as int)) == buf@.subrange(
                body as int,
                cursor as int,
            ),
        decreases count - hashes.len(),
    {
        proof {
            assert((hashes@.len() + 1) * width <= count * width) by (nonlinear_arith)
                requires
                    hashes@.len() < count,
            ;
            assert((hashes@.len() + 1) * width == hashes@.len() * width + width)
                by (nonlinear_arith);
        }
        let hash: StructuralHash = read_hash(buf, cursor, width);
        let ghost before = hashes@;
        hashes.push(hash);
        proof {
            let old_short = short_hashes(hash_views(before), width as int);
            let short = short_hashes(hash_views(hashes@), width as int);
            assert(short.drop_last() =~= old_short);
            assert(short.last() =~= buf@.subrange(cursor as int, cursor + width));
            assert(buf@.subrange(body as int, cursor + width) =~= buf@.subrange(
                body as int,
                cursor as int,
            ) + buf@.subrange(cursor as int, cursor + width));
            assert forall|i: int, j: int|
                0 <= i < hashes@.len() && width <= j < 32 implies #[trigger] hash_views(
                hashes@,
            )[i][j] == 0 by {
                if i < before.len() {
                    assert(hash_views(before)[i][j] == 0);
                }
            }
        }
        cursor = cursor + width;
    }
    proof {
        assert(hashes@.len() * width == count * width);
    }
    hashes
}

/// A header, the leaves and the hashes make up the bytes of a node.
proof fn layout_assembled<K: HamtCodec, V: HamtCodec>(
    buf: Seq<u8>,
    datamap: u32,
    nodemap: u32,
    leaves: Seq<(K, V)>,
    hashes: Seq<Seq<u8>>,
    body: int,
)
    requires
        17 <= body <= buf.len(),
        header_word(buf, 1) == datamap,
        header_word(buf, 5) == nodemap,
        header_word(buf, 9) == leaves.len(),
        header_word(buf, 13) == hashes.len(),
        leaf_bytes(leaves) == buf.subrange(17, body),
        hash_bytes(hashes) == buf.subrange(body, buf.len() as int),
    ensures
        buf == layout(buf[0], datamap, nodemap, leaves, hashes),
{
    word_bytes(buf, 1);
    word_bytes(buf, 5);
    word_bytes(buf, 9);
    word_bytes(buf, 13);
    let head = seq![buf[0]] + le_bytes(datamap as nat, 4) + le_bytes(nodemap as nat, 4) + le_bytes(
        leaves.len(),
        4,
    ) + le_bytes(hashes.len(), 4);
    assert(head =~= buf.subrange(0, 17)) by {
        assert(buf.subrange(0, 17) =~= buf.subrange(0, 1) + buf.subrange(1, 5) + buf.subrange(5, 9)
            + buf.subrange(9, 13) + buf.subrange(13, 17));
        assert(buf.subrange(0, 1) =~= seq![buf[0]]);
    }
    assert(buf =~= buf.subrange(0, 17) + buf.subrange(17, body) + buf.subrange(
        body,
        buf.len() as int,
    ));
    assert(buf =~= layout(buf[0], datamap, nodemap, leaves, hashes));
}

/// Reads a node's contents behind the version byte, with child hashes of a
/// width. Shorter hashes are left-aligned, with zeros behind them.
#[verifier::spinoff_prover]
fn decode_layout<K: HamtCodec, V: HamtCodec>(buf: &[u8], width: usize) -> (result: Result<
    PersistedInternalNode<K, V>,
    &'static str,
>)
    requires
        buf@.len() > 0,
        width == 16 || width == 32,
    ensures
        match result {
            Ok(node) => {
                &&& layout_error::<K, V>(buf@, width as nat) is None
                &&& parts_fit(node.datamap, node.nodemap, node.leaves@, node.child_hashes@.len())
                &&& leaves_read(buf@, node.leaves@)
                &&& zero_tails(hash_views(node.child_hashes@), width as int)
                &&& buf@ == layout(
                    buf@[0],
                    node.datamap,
                    node.nodemap,
                    node.leaves@,
                    short_hashes(hash_views(node.child_hashes@), width as int),
                )
            },
            Err(message) => layout_error::<K, V>(buf@, width as nat) == Some(message@),
        },
{
    if buf.len() < 17 {
        return Err("Buffer too short for v1 header");
    }
    let datamap: u32 = read_le_u64(buf, 1, 4) as u32;
    let nodemap: u32 = read_le_u64(buf, 5, 4) as u32;
    proof {
        byte_range_values();
        word_bytes(buf@, 1);
        word_bytes(buf@, 5);
    }
    if datamap & nodemap != 0 {
        return Err("Datamap and nodemap overlap: node is corrupt");
    }
    let leaf_count: u64 = read_le_u64(buf, 9, 4);
    let child_count: u64 = read_le_u64(buf, 13, 4);
    let expected_leaves: usize = map_index(datamap, 32);
    let expected_children: usize = map_index(nodemap, 32);
    if leaf_count != expected_leaves as u64 {
        return Err("Leaf count does not match datamap");
    }
    if child_count != expected_children as u64 {
        return Err("Child count does not match nodemap");
    }
    let (leaves, cursor): (Vec<(K, V)>, usize) = match read_leaves(buf, expected_leaves) {
        Ok(read) => read,
        Err(message) => return Err(message),
    };
    proof {
        assert(expected_children * width <= 1024) by (nonlinear_arith)
            requires
                expected_children <= 32,
                width <= 32,
        ;
        assert(width * expected_children == expected_children * width) by (nonlinear_arith);
    }
    let child_bytes: usize = expected_children * width;
    let total_len: usize = match cursor.checked_add(child_bytes) {
        Some(total_len) => total_len,
        None => return Err("Child hash payload size overflows usize"),
    };
    if buf.len() < total_len {
        return Err("Buffer too short for child hashes");
    }
    if buf.len() > total_len {
        return Err("Buffer contains trailing bytes");
    }
    let child_hashes: Vec<StructuralHash> = read_hashes(buf, cursor, expected_children, width);
    proof {
        layout_assembled(
            buf@,
            datamap,
            nodemap,
            leaves@,
            short_hashes(hash_views(child_hashes@), width as int),
            cursor as int,
        );
    }
    Ok(PersistedInternalNode { datamap, nodemap, leaves, child_hashes })
}

/// The bytes of a number of the header.
proof fn word_bytes(buf: Seq<u8>, start: int)
    requires
        0 <= start,
        start + 4 <= buf.len(),
    ensures
        header_word(buf, start) < byte_range(4),
        le_bytes(header_word(buf, start), 4) == buf.subrange(start, start + 4),
{
    le_bytes_of_value(buf.subrange(start, start + 4));
}

impl<K: HamtCodec, V: HamtCodec> PersistedInternalNode<K, V> {
    /// The payload lengths agree with the bitmaps, which do not overlap, and
    /// the leaves can be encoded.
    pub open spec fn fits(&self) -> bool {
        parts_fit(self.datamap, self.nodemap, self.leaves@, self.child_hashes@.len())
    }

    /// The bytes of the node.
    pub open spec fn bytes(&self) -> Seq<u8> {
        encoded_node(self.datamap, self.nodemap, self.leaves@, hash_views(self.child_hashes@))
    }

    /// Encodes the node to a dense binary format.
    ///
    /// Layout:
    /// - Version (1 byte): `0x02`
    /// - Datamap (4 bytes, LE)
    /// - Nodemap (4 bytes, LE)
    /// - Leaf count (4 bytes, LE)
    /// - Child count (4 bytes, LE)
    /// - Inline leaves (`K`, `V` pairs in datamap order)
    /// - Child hashes (`32 * child_count` bytes in nodemap order)
    #[must_use]
    pub fn encode_v1(&self) -> (bytes: Vec<u8>)
        requires
            self.fits(),
        ensures
            bytes@ == self.bytes(),
    {
        encode_node_parts(
            self.datamap,
            self.nodemap,
            self.leaves.as_slice(),
            self.child_hashes.as_slice(),
        )
    }

    /// Decodes the node from a dense binary format.
    ///
    /// # Errors
    /// Returns an error when the version byte is invalid or the buffer is too
    /// short for the declared payload.
    pub fn decode_v1_unverified(buf: &[u8]) -> (result: Result<Self, &'static str>)
        ensures
            match result {
                Ok(node) => {
                    &&& decode_error::<K, V>(buf@) is None
                    &&& node.fits()
                    &&& node.bytes() == buf@
                    &&& leaves_read(buf@, node.leaves@)
                },
                Err(message) => decode_error::<K, V>(buf@) == Some(message@),
            },
    {
        if buf.len() > 0 && buf[0] == HAMT_WIRE_VERSION {
            let result: Result<Self, &'static str> = decode_layout(buf, 32);
            proof {
                if result is Ok {
                    let hashes = hash_views(result->Ok_0.child_hashes@);
                    assert(short_hashes(hashes, 32) =~= hashes) by {
                        assert forall|i: int| 0 <= i < hashes.len() implies hashes[i].take(32)
                            == hashes[i] by {
                            assert(hashes[i].take(32) =~= hashes[i]);
                        }
                    }
                }
            }
            result
        } else if buf.len() > 0 && buf[0] == LEGACY_WIRE_VERSION_16_BYTE_HASHES {
            Err(
                "Legacy v1 node (16-byte structural hashes) is unsupported; re-persist or migrate before decoding",
            )
        } else {
            Err("Invalid version byte")
        }
    }

    /// Parse-only decoder for `0x01` records that carried 16-byte structural
    /// hashes.
    ///
    /// This exists solely so legacy bytes can be inspected or migrated: the
    /// storage key of those records committed to the 16-byte representation,
    /// so it cannot be recovered. Decoded child hashes hold their legacy 16
    /// bytes left-aligned; the trailing half is zero.
    ///
    /// # Errors
    /// Returns an error when the buffer lacks the `0x01` version byte or does
    /// not match the legacy layout.
    pub fn decode_v1_legacy_unverified(buf: &[u8]) -> (result: Result<Self, &'static str>)
        ensures
            match result {
                Ok(node) => {
                    &&& legacy_error::<K, V>(buf@) is None
                    &&& node.fits()
                    &&& buf@ == layout(
                        LEGACY_WIRE_VERSION_16_BYTE_HASHES,
                        node.datamap,
                        node.nodemap,
                        node.leaves@,
                        short_hashes(hash_views(node.child_hashes@), 16),
                    )
                    &&& zero_tails(hash_views(node.child_hashes@), 16)
                    &&& leaves_read(buf@, node.leaves@)
                },
                Err(message) => legacy_error::<K, V>(buf@) == Some(message@),
            },
    {
        if buf.len() > 0 && buf[0] == LEGACY_WIRE_VERSION_16_BYTE_HASHES {
            decode_layout(buf, 16)
        } else {
            Err("Invalid version byte")
        }
    }

    /// Why a decoded node cannot stand under a storage key.
    pub open spec fn verify_error(
        &self,
        structural_key: Seq<u8>,
        expected_hash: Seq<u8>,
    ) -> Option<Seq<char>> {
        if self.datamap & self.nodemap != 0 {
            Some("PersistedInternalNode datamap and nodemap overlap"@)
        } else if self.leaves@.len() != rank(self.datamap, 32) {
            Some("PersistedInternalNode leaf count does not match datamap"@)
        } else if self.child_hashes@.len() != rank(self.nodemap, 32) {
            Some("PersistedInternalNode child count does not match nodemap"@)
        } else if node_digest(
            structural_key,
            self.datamap,
            self.nodemap,
            self.leaves@,
            hash_views(self.child_hashes@),
        ) != expected_hash {
            Some("persisted node contents do not match expected structural hash"@)
        } else {
            None
        }
    }

    /// The node is that of a decoded node, with nothing loaded below it.
    pub open spec fn is_node(&self, node: HamtNode<K, V>) -> bool {
        &&& node.datamap == self.datamap
        &&& node.nodemap == self.nodemap
        &&& node.leaves == self.leaves
        &&& node.children@ == Seq::new(
            self.child_hashes@.len(),
            |i: int| NodeRef::<K, V>::Lazy(self.child_hashes@[i]),
        )
    }

    /// Validates this decoded node against the storage key that selected it.
    ///
    /// Persisted nodes deliberately do not carry a duplicate structural hash.
    /// Callers must supply the hash used to fetch the bytes; this recomputes
    /// the node identity under `structural_key` and rejects a shape-valid node
    /// stored under the wrong key.
    ///
    /// # Errors
    /// Returns an error if the node's contents do not reproduce
    /// `expected_hash`.
    pub fn into_hamt_node_verified(
        self,
        structural_key: &[u8],
        expected_hash: StructuralHash,
    ) -> (result: Result<HamtNode<K, V>, &'static str>)
        requires
            leaves_encodable(self.leaves@),
        ensures
            match result {
                Ok(node) => {
                    &&& self.verify_error(structural_key@, expected_hash@) is None
                    &&& self.is_node(node)
                    &&& node.structural_hash == expected_hash
                    &&& node.shape()
                    &&& node.structural_hash@ == node.digest(structural_key@)
                },
                Err(message) => self.verify_error(structural_key@, expected_hash@) == Some(
                    message@,
                ),
            },
    {
        let ghost whole = self;
        let PersistedInternalNode { datamap, nodemap, leaves, child_hashes } = self;
        if datamap & nodemap != 0 {
            return Err("PersistedInternalNode datamap and nodemap overlap");
        }
        if leaves.len() != map_index(datamap, 32) {
            return Err("PersistedInternalNode leaf count does not match datamap");
        }
        if child_hashes.len() != map_index(nodemap, 32) {
            return Err("PersistedInternalNode child count does not match nodemap");
        }
        let mut children: Vec<NodeRef<K, V>> = Vec::new();
        let mut index: usize = 0;
        while index < child_hashes.len()
            invariant
                index <= child_hashes.len(),
                children@.len() == index,
                forall|i: int|
                    0 <= i < index ==> #[trigger] children@[i] == NodeRef::<K, V>::Lazy(
                        child_hashes@[i],
                    ),
            decreases child_hashes.len() - index,
        {
            children.push(NodeRef::Lazy(child_hashes[index]));
            index = index + 1;
        }
        proof {
            assert(ref_hashes(children@) =~= hash_views(child_hashes@));
        }
        let recomputed: StructuralHash = HamtNode::compute_structural_hash(
            structural_key,
            datamap,
            nodemap,
            leaves.as_slice(),
            children.as_slice(),
        );
        if !same_hash(&recomputed, &expected_hash) {
            return Err("persisted node contents do not match expected structural hash");
        }
        proof {
            assert(children@ =~= Seq::new(
                whole.child_hashes@.len(),
                |i: int| NodeRef::<K, V>::Lazy(whole.child_hashes@[i]),
            ));
        }
        Ok(HamtNode { datamap, nodemap, leaves, children, structural_hash: expected_hash })
    }

    /// Decodes a node and verifies it against the storage key that selected
    /// the bytes.
    ///
    /// This is the normal cold-storage load path. `decode_v1_unverified` is
    /// only the syntactic decoder for callers that need to inspect persisted
    /// data before choosing an expected hash.
    ///
    /// # Errors
    /// Returns an error when the bytes are malformed or their recomputed
    /// structural hash does not match `expected_hash`.
    pub fn decode_v1_verified(
        buf: &[u8],
        structural_key: &[u8],
        expected_hash: StructuralHash,
    ) -> (result: Result<HamtNode<K, V>, &'static str>)
        ensures
            verified_outcome(buf@, structural_key@, expected_hash, result),
    {
        match Self::decode_v1_unverified(buf) {
            Ok(decoded) => {
                let ghost hashes = hash_views(decoded.child_hashes@);
                let result: Result<HamtNode<K, V>, &'static str> = decoded.into_hamt_node_verified(
                    structural_key,
                    expected_hash,
                );
                proof {
                    if result is Ok {
                        assert(ref_hashes(result->Ok_0.children@) =~= hashes);
                    }
                }
                result
            },
            Err(message) => Err(message),
        }
    }

    /// The persisted form of a node.
    pub fn from_node(node: &HamtNode<K, V>) -> (persisted: Self) where K: Clone, V: Clone
        ensures
            persisted.datamap == node.datamap,
            persisted.nodemap == node.nodemap,
            hash_views(persisted.child_hashes@) == ref_hashes(node.children@),
            clone_keeps::<K>() && clone_keeps::<V>() ==> {
                &&& same_leaves(node.leaves@, persisted.leaves@)
                &&& node.shape() ==> persisted.fits() && persisted.bytes() == node_bytes(*node)
            },
    {
        let mut child_hashes: Vec<StructuralHash> = Vec::new();
        let mut index: usize = 0;
        while index < node.children.len()
            invariant
                index <= node.children.len(),
                child_hashes@.len() == index,
                forall|i: int|
                    0 <= i < index ==> (#[trigger] child_hashes@[i])@ == ref_hash(
                        node.children@[i],
                    ),
            decreases node.children.len() - index,
        {
            child_hashes.push(node.children[index].structural_hash());
            index = index + 1;
        }
        let leaves: Vec<(K, V)> = clone_leaves(&node.leaves);
        proof {
            assert(hash_views(child_hashes@) =~= ref_hashes(node.children@));
            if clone_keeps::<K>() && clone_keeps::<V>() {
                if node.shape() {
                    assert forall|i: int| 0 <= i < leaves@.len() implies (
                    #[trigger] leaves@[i]).0.encodable() && leaves@[i].1.encodable() by {
                        assert(same_leaf(node.leaves@[i], leaves@[i]));
                        assert(node.leaves@[i].0.encodable());
                    }
                }
                assert forall|i: int| 0 <= i < node.leaves@.len() implies (
                #[trigger] node.leaves@[i]).0.encoding() == leaves@[i].0.encoding()
                    && node.leaves@[i].1.encoding() == leaves@[i].1.encoding() by {
                    assert(same_leaf(node.leaves@[i], leaves@[i]));
                }
                leaf_bytes_agree(node.leaves@, leaves@);
            }
        }
        PersistedInternalNode { datamap: node.datamap, nodemap: node.nodemap, leaves, child_hashes }
    }
}

impl<'a, K: HamtCodec + Clone, V: HamtCodec + Clone> From<
    &'a HamtNode<K, V>,
> for PersistedInternalNode<K, V> {
    fn from(node: &'a HamtNode<K, V>) -> (persisted: Self)
        ensures
            persisted.datamap == node.datamap,
            persisted.nodemap == node.nodemap,
            hash_views(persisted.child_hashes@) == ref_hashes(node.children@),
            clone_keeps::<K>() && clone_keeps::<V>() ==> {
                &&& same_leaves(node.leaves@, persisted.leaves@)
                &&& node.shape() ==> persisted.fits() && persisted.bytes() == node_bytes(*node)
            },
    {
        Self::from_node(node)
    }
}

impl<'a, K: HamtCodec + Clone, V: HamtCodec + Clone> vstd::std_specs::convert::FromSpecImpl<
    &'a HamtNode<K, V>,
> for PersistedInternalNode<K, V> {
    /// A clone of a leaf need not be the leaf, so the contract of `from` says what
    /// the result is.
    open spec fn obeys_from_spec() -> bool {
        false
    }

    open spec fn from_spec(node: &'a HamtNode<K, V>) -> Self {
        choose|persisted: Self|
            {
                &&& persisted.datamap == node.datamap
                &&& persisted.nodemap == node.nodemap
                &&& persisted.leaves == node.leaves
                &&& hash_views(persisted.child_hashes@) == ref_hashes(node.children@)
            }
    }
}

/// What decoding bytes against a hash returns.
pub open spec fn verified_outcome<K: HamtCodec, V: HamtCodec>(
    buf: Seq<u8>,
    structural_key: Seq<u8>,
    expected_hash: StructuralHash,
    result: Result<HamtNode<K, V>, &'static str>,
) -> bool {
    match result {
        Ok(node) => {
            &&& decode_error::<K, V>(buf) is None
            &&& node_bytes(node) == buf
            &&& leaves_read(buf, node.leaves@)
            &&& keyed_hash(structural_key, node_domain() + buf) == expected_hash@
            &&& node.structural_hash == expected_hash
            &&& node.shape()
            &&& node.structural_hash@ == node.digest(structural_key)
            &&& all_lazy(node)
        },
        Err(message) => match decode_error::<K, V>(buf) {
            Some(problem) => message@ == problem,
            None => {
                &&& keyed_hash(structural_key, node_domain() + buf) != expected_hash@
                &&& message@ == "persisted node contents do not match expected structural hash"@
            },
        },
    }
}

/// The canonical bytes of a node.
pub open spec fn node_bytes<K: HamtCodec, V: HamtCodec>(node: HamtNode<K, V>) -> Seq<u8> {
    encoded_node(node.datamap, node.nodemap, node.leaves@, ref_hashes(node.children@))
}

/// Nothing is loaded below the node.
pub open spec fn all_lazy<K, V>(node: HamtNode<K, V>) -> bool {
    forall|i: int| 0 <= i < node.children@.len() ==> (#[trigger] node.children@[i]) is Lazy
}

/// The bytes of leaves, split before one of them.
proof fn leaf_bytes_split<K: HamtCodec, V: HamtCodec>(leaves: Seq<(K, V)>, n: int)
    requires
        0 <= n < leaves.len(),
    ensures
        exists|after: Seq<u8>| #[trigger]
            leaf_split(leaves, n, after),
    decreases leaves.len(),
{
    if n == leaves.len() - 1 {
        assert(leaves.take(n) =~= leaves.drop_last());
        assert(leaf_bytes(leaves) =~= leaf_bytes(leaves.take(n)) + leaves[n].0.encoding()
            + leaves[n].1.encoding() + Seq::<u8>::empty());
        assert(leaf_split(leaves, n, Seq::empty()));
    } else {
        let front = leaves.drop_last();
        leaf_bytes_split(front, n);
        let rest = choose|after: Seq<u8>| #[trigger] leaf_split(front, n, after);
        assert(front.take(n) =~= leaves.take(n));
        assert(front[n] == leaves[n]);
        let after = rest + leaves.last().0.encoding() + leaves.last().1.encoding();
        assert(leaf_bytes(leaves) =~= leaf_bytes(leaves.take(n)) + leaves[n].0.encoding()
            + leaves[n].1.encoding() + after);
        assert(leaf_split(leaves, n, after));
    }
}

/// The bytes of leaves are those before one of them, its own, and others.
spec fn leaf_split<K: HamtCodec, V: HamtCodec>(
    leaves: Seq<(K, V)>,
    n: int,
    after: Seq<u8>,
) -> bool {
    leaf_bytes(leaves) == leaf_bytes(leaves.take(n)) + leaves[n].0.encoding()
        + leaves[n].1.encoding() + after
}

/// Reading leaves from the bytes of leaves ends behind the leaves read.
proof fn parse_leaf_bytes<K: HamtCodec, V: HamtCodec>(
    head: Seq<u8>,
    leaves: Seq<(K, V)>,
    tail: Seq<u8>,
    n: nat,
)
    requires
        n <= leaves.len(),
        leaves_encodable(leaves),
        (head + leaf_bytes(leaves) + tail).len() <= usize::MAX,
    ensures
        parse_leaves::<K, V>(head + leaf_bytes(leaves) + tail, head.len(), n) == (
            head.len() + leaf_bytes(leaves.take(n as int)).len(),
            None::<Seq<char>>,
        ),
        n < leaves.len() ==> {
            let buf = head + leaf_bytes(leaves) + tail;
            let start = head.len() + leaf_bytes(leaves.take(n as int)).len();
            let middle = K::parse(buf, start).0;
            let end = V::parse(buf, middle).0;
            &&& middle == start + leaves[n as int].0.encoding().len()
            &&& end == middle + leaves[n as int].1.encoding().len()
            &&& buf.subrange(start as int, middle as int) == leaves[n as int].0.encoding()
            &&& buf.subrange(middle as int, end as int) == leaves[n as int].1.encoding()
            &&& K::parse(buf, start).1 is None
            &&& V::parse(buf, middle).1 is None
        },
    decreases n,
{
    let buf = head + leaf_bytes(leaves) + tail;
    if n > 0 {
        parse_leaf_bytes(head, leaves, tail, (n - 1) as nat);
        let now = leaves.take(n as int);
        assert(now.drop_last() =~= leaves.take(n - 1));
        assert(now.last() == leaves[n - 1]);
    } else {
        assert(leaves.take(0).len() == 0);
        assert(leaf_bytes(leaves.take(0)) =~= Seq::<u8>::empty());
    }
    if n < leaves.len() {
        let (key, value) = leaves[n as int];
        leaf_bytes_split(leaves, n as int);
        let after = choose|after: Seq<u8>| #[trigger] leaf_split(leaves, n as int, after);
        let before = head + leaf_bytes(leaves.take(n as int));
        assert(buf =~= before + key.encoding() + (value.encoding() + after + tail));
        key.parse_encoding(before, value.encoding() + after + tail);
        let next = before + key.encoding();
        assert(buf =~= next + value.encoding() + (after + tail));
        value.parse_encoding(next, after + tail);
        assert(buf.subrange(
            before.len() as int,
            (before.len() + key.encoding().len()) as int,
        ) =~= key.encoding());
        assert(buf.subrange(
            next.len() as int,
            (next.len() + value.encoding().len()) as int,
        ) =~= value.encoding());
    }
}

/// The length of hashes, one after the other.
proof fn hash_bytes_len(hashes: Seq<StructuralHash>)
    ensures
        hash_bytes(hash_views(hashes)).len() == 32 * hashes.len(),
    decreases hashes.len(),
{
    if hashes.len() > 0 {
        hash_bytes_len(hashes.drop_last());
        assert(hash_views(hashes).drop_last() =~= hash_views(hashes.drop_last()));
    }
}

/// The parts of a node have bytes that can be decoded.
proof fn encoded_decodes<K: HamtCodec, V: HamtCodec>(
    datamap: u32,
    nodemap: u32,
    leaves: Seq<(K, V)>,
    hashes: Seq<StructuralHash>,
)
    requires
        parts_fit(datamap, nodemap, leaves, hashes.len()),
        encoded_node(datamap, nodemap, leaves, hash_views(hashes)).len() <= usize::MAX,
    ensures
        decode_error::<K, V>(encoded_node(datamap, nodemap, leaves, hash_views(hashes))) is None,
{
    let views = hash_views(hashes);
    let buf = encoded_node(datamap, nodemap, leaves, views);
    let head = seq![HAMT_WIRE_VERSION] + le_bytes(datamap as nat, 4) + le_bytes(
        nodemap as nat,
        4,
    ) + le_bytes(leaves.len(), 4) + le_bytes(views.len(), 4);
    let tail = hash_bytes(views);
    assert(buf =~= head + leaf_bytes(leaves) + tail);
    header_facts(datamap, nodemap, leaves, hashes);
    rank_bound(datamap, 32);
    rank_bound(nodemap, 32);
    parse_leaf_bytes(head, leaves, tail, leaves.len());
    assert(leaves.take(leaves.len() as int) =~= leaves);
    hash_bytes_len(hashes);
}

/// The bytes of a node determine its bitmaps, the encodings of its keys and of
/// its values, and its child hashes. So a key and its value are told apart: what
/// moves from one to the other changes the bytes.
pub proof fn encoding_determines_parts<K: HamtCodec, V: HamtCodec>(
    datamap: u32,
    nodemap: u32,
    leaves: Seq<(K, V)>,
    hashes: Seq<StructuralHash>,
    other_datamap: u32,
    other_nodemap: u32,
    other_leaves: Seq<(K, V)>,
    other_hashes: Seq<StructuralHash>,
)
    requires
        parts_fit(datamap, nodemap, leaves, hashes.len()),
        parts_fit(other_datamap, other_nodemap, other_leaves, other_hashes.len()),
        encoded_node(datamap, nodemap, leaves, hash_views(hashes)).len() <= usize::MAX,
        encoded_node(datamap, nodemap, leaves, hash_views(hashes)) == encoded_node(
            other_datamap,
            other_nodemap,
            other_leaves,
            hash_views(other_hashes),
        ),
    ensures
        other_datamap == datamap,
        other_nodemap == nodemap,
        other_leaves.len() == leaves.len(),
        forall|i: int|
            0 <= i < leaves.len() ==> same_leaf(#[trigger] leaves[i], other_leaves[i]),
        hash_views(other_hashes) == hash_views(hashes),
{
    let views = hash_views(hashes);
    let other_views = hash_views(other_hashes);
    let buf = encoded_node(datamap, nodemap, leaves, views);
    header_facts(datamap, nodemap, leaves, hashes);
    header_facts(other_datamap, other_nodemap, other_leaves, other_hashes);
    let head = seq![HAMT_WIRE_VERSION] + le_bytes(datamap as nat, 4) + le_bytes(
        nodemap as nat,
        4,
    ) + le_bytes(leaves.len(), 4) + le_bytes(views.len(), 4);
    let tail = hash_bytes(views);
    let other_tail = hash_bytes(other_views);
    assert(buf =~= head + leaf_bytes(leaves) + tail);
    assert(buf =~= head + leaf_bytes(other_leaves) + other_tail);
    assert forall|i: int| 0 <= i < leaves.len() implies same_leaf(
        #[trigger] leaves[i],
        other_leaves[i],
    ) by {
        parse_leaf_bytes(head, leaves, tail, i as nat);
        parse_leaf_bytes(head, other_leaves, other_tail, i as nat);
    }
    assert forall|i: int| 0 <= i < leaves.len() implies (#[trigger] leaves[i]).0.encoding()
        == other_leaves[i].0.encoding() && leaves[i].1.encoding()
        == other_leaves[i].1.encoding() by {
        assert(same_leaf(leaves[i], other_leaves[i]));
    }
    leaf_bytes_agree(leaves, other_leaves);
    hash_bytes_len(hashes);
    hash_bytes_len(other_hashes);
    let mark = (head + leaf_bytes(leaves)).len() as int;
    assert(buf.skip(mark) =~= tail);
    assert(buf.skip(mark) =~= other_tail);
    hash_bytes_injective(hashes, other_hashes);
}

/// Decoding what was encoded succeeds and gives the node back: the same
/// bitmaps and child hashes, and leaves with the same encodings.
pub proof fn decode_encoded<K: HamtCodec, V: HamtCodec>(
    node: PersistedInternalNode<K, V>,
    decoded: PersistedInternalNode<K, V>,
)
    requires
        node.fits(),
        node.bytes().len() <= usize::MAX,
    ensures
        decode_error::<K, V>(node.bytes()) is None,
        decoded.fits() && decoded.bytes() == node.bytes() ==> {
            &&& decoded.datamap == node.datamap
            &&& decoded.nodemap == node.nodemap
            &&& decoded.leaves@.len() == node.leaves@.len()
            &&& forall|i: int|
                0 <= i < node.leaves@.len() ==> same_leaf(
                    #[trigger] node.leaves@[i],
                    decoded.leaves@[i],
                )
            &&& hash_views(decoded.child_hashes@) == hash_views(node.child_hashes@)
        },
{
    encoded_decodes(node.datamap, node.nodemap, node.leaves@, node.child_hashes@);
    if decoded.fits() && decoded.bytes() == node.bytes() {
        encoding_determines_parts(
            node.datamap,
            node.nodemap,
            node.leaves@,
            node.child_hashes@,
            decoded.datamap,
            decoded.nodemap,
            decoded.leaves@,
            decoded.child_hashes@,
        );
    }
}

/// The hashes of a node's children, whether they are loaded or not.
pub open spec fn child_hashes<K, V>(node: HamtNode<K, V>) -> Seq<StructuralHash> {
    Seq::new(
        node.children@.len(),
        |i: int|
            match node.children@[i] {
                NodeRef::Resolved(child) => child.structural_hash,
                NodeRef::Lazy(hash) => hash,
            },
    )
}

proof fn child_hashes_view<K, V>(node: HamtNode<K, V>)
    ensures
        hash_views(child_hashes(node)) == ref_hashes(node.children@),
{
    assert(hash_views(child_hashes(node)) =~= ref_hashes(node.children@));
}

/// The persisted bytes of a node decode, against the hash of the node, to the
/// node with its children left to be loaded, and against any other hash to an
/// error.
pub proof fn verified_decode_of_encoded<K: HamtCodec, V: HamtCodec>(
    node: HamtNode<K, V>,
    structural_key: Seq<u8>,
    expected_hash: StructuralHash,
    result: Result<HamtNode<K, V>, &'static str>,
)
    requires
        node.shape(),
        node.structural_hash@ == node.digest(structural_key),
        node_bytes(node).len() <= usize::MAX,
        verified_outcome(node_bytes(node), structural_key, expected_hash, result),
    ensures
        if expected_hash@ == node.structural_hash@ {
            &&& result matches Ok(loaded)
            &&& loaded.datamap == node.datamap
            &&& loaded.nodemap == node.nodemap
            &&& loaded.structural_hash@ == node.structural_hash@
            &&& loaded.leaves@.len() == node.leaves@.len()
            &&& forall|i: int|
                0 <= i < node.leaves@.len() ==> same_leaf(
                    #[trigger] node.leaves@[i],
                    loaded.leaves@[i],
                )
            &&& all_lazy(loaded)
            &&& ref_hashes(loaded.children@) == ref_hashes(node.children@)
        } else {
            result matches Err(message) && message@
                == "persisted node contents do not match expected structural hash"@
        },
{
    child_hashes_view(node);
    encoded_decodes(node.datamap, node.nodemap, node.leaves@, child_hashes(node));
    if let Ok(loaded) = result {
        child_hashes_view(loaded);
        encoding_determines_parts(
            node.datamap,
            node.nodemap,
            node.leaves@,
            child_hashes(node),
            loaded.datamap,
            loaded.nodemap,
            loaded.leaves@,
            child_hashes(loaded),
        );
    }
}

/// The two inputs of a keyed hash do not collide.
pub open spec fn no_collision(structural_key: Seq<u8>, a: Seq<u8>, b: Seq<u8>) -> bool {
    keyed_hash(structural_key, a) == keyed_hash(structural_key, b) ==> a == b
}

/// Nodes with equal structural hashes have the same bitmaps, keys, values and
/// child hashes, where the keyed hash does not collide on them; and a node counts
/// its children by their hashes alone, whether they are loaded or not.
pub proof fn structural_hash_separates<K: HamtCodec, V: HamtCodec>(
    structural_key: Seq<u8>,
    a: HamtNode<K, V>,
    b: HamtNode<K, V>,
)
    requires
        a.shape(),
        b.shape(),
        node_bytes(a).len() <= usize::MAX,
        no_collision(
            structural_key,
            node_domain() + node_bytes(a),
            node_domain() + node_bytes(b),
        ),
    ensures
        a.digest(structural_key) == b.digest(structural_key) <==> {
            &&& a.datamap == b.datamap
            &&& a.nodemap == b.nodemap
            &&& a.leaves@.len() == b.leaves@.len()
            &&& forall|i: int|
                0 <= i < a.leaves@.len() ==> same_leaf(#[trigger] a.leaves@[i], b.leaves@[i])
            &&& child_hashes(a).len() == child_hashes(b).len()
            &&& hash_views(child_hashes(a)) == hash_views(child_hashes(b))
        },
{
    child_hashes_view(a);
    child_hashes_view(b);
    if a.digest(structural_key) == b.digest(structural_key) {
        let (x, y) = (node_domain() + node_bytes(a), node_domain() + node_bytes(b));
        assert(x == y);
        assert(x.skip(node_domain().len() as int) =~= node_bytes(a));
        assert(y.skip(node_domain().len() as int) =~= node_bytes(b));
        encoding_determines_parts(
            a.datamap,
            a.nodemap,
            a.leaves@,
            child_hashes(a),
            b.datamap,
            b.nodemap,
            b.leaves@,
            child_hashes(b),
        );
        assert(hash_views(child_hashes(a)).len() == child_hashes(a).len());
    }
    if a.datamap == b.datamap && a.nodemap == b.nodemap && a.leaves@.len() == b.leaves@.len() && (
    forall|i: int|
        0 <= i < a.leaves@.len() ==> same_leaf(#[trigger] a.leaves@[i], b.leaves@[i]))
        && hash_views(child_hashes(a)) == hash_views(child_hashes(b)) {
        assert forall|i: int| 0 <= i < a.leaves@.len() implies (
        #[trigger] a.leaves@[i]).0.encoding() == b.leaves@[i].0.encoding()
            && a.leaves@[i].1.encoding() == b.leaves@[i].1.encoding() by {
            assert(same_leaf(a.leaves@[i], b.leaves@[i]));
        }
        leaf_bytes_agree(a.leaves@, b.leaves@);
    }
}

/// The bytes of hashes determine the hashes.
proof fn hash_bytes_injective(a: Seq<StructuralHash>, b: Seq<StructuralHash>)
    requires
        a.len() == b.len(),
        hash_bytes(hash_views(a)) == hash_bytes(hash_views(b)),
    ensures
        hash_views(a) == hash_views(b),
    decreases a.len(),
{
    if a.len() > 0 {
        let (fa, fb) = (a.drop_last(), b.drop_last());
        assert(hash_views(a).drop_last() =~= hash_views(fa));
        assert(hash_views(b).drop_last() =~= hash_views(fb));
        hash_bytes_len(fa);
        hash_bytes_len(fb);
        let (xa, xb) = (hash_bytes(hash_views(a)), hash_bytes(hash_views(b)));
        let mark = 32 * fa.len() as int;
        assert(xa.take(mark) =~= hash_bytes(hash_views(fa)));
        assert(xb.take(mark) =~= hash_bytes(hash_views(fb)));
        assert(xa.skip(mark) =~= a.last()@);
        assert(xb.skip(mark) =~= b.last()@);
        hash_bytes_injective(fa, fb);
        assert(hash_views(a) =~= hash_views(fa).push(a.last()@));
        assert(hash_views(b) =~= hash_views(fb).push(b.last()@));
    } else {
        assert(hash_views(a) =~= hash_views(b));
    }
}

/// The numbers in the header of a node's bytes.
proof fn header_facts<K: HamtCodec, V: HamtCodec>(
    datamap: u32,
    nodemap: u32,
    leaves: Seq<(K, V)>,
    hashes: Seq<StructuralHash>,
)
    requires
        parts_fit(datamap, nodemap, leaves, hashes.len()),
    ensures
        ({
            let buf = encoded_node(datamap, nodemap, leaves, hash_views(hashes));
            &&& buf.len() >= 17
            &&& buf[0] == HAMT_WIRE_VERSION
            &&& header_word(buf, 1) == datamap
            &&& header_word(buf, 5) == nodemap
            &&& header_word(buf, 9) == leaves.len()
            &&& header_word(buf, 13) == hashes.len()
        }),
        le_bytes(datamap as nat, 4).len() == 4,
        le_bytes(nodemap as nat, 4).len() == 4,
        le_bytes(leaves.len(), 4).len() == 4,
        le_bytes(hashes.len(), 4).len() == 4,
{
    let buf = encoded_node(datamap, nodemap, leaves, hash_views(hashes));
    byte_range_values();
    rank_bound(datamap, 32);
    rank_bound(nodemap, 32);
    le_value_of_bytes(datamap as nat, 4);
    le_value_of_bytes(nodemap as nat, 4);
    le_value_of_bytes(leaves.len(), 4);
    le_value_of_bytes(hashes.len(), 4);
    assert(buf.subrange(1, 5) =~= le_bytes(datamap as nat, 4));
    assert(buf.subrange(5, 9) =~= le_bytes(nodemap as nat, 4));
    assert(buf.subrange(9, 13) =~= le_bytes(leaves.len(), 4));
    assert(buf.subrange(13, 17) =~= le_bytes(hashes.len(), 4));
}

} // verus!
