//! Merkleized event-metadata primitives.

use vstd::prelude::*;
use vstd::string::StringExecFns;
use vstd::utf8::{
    encode_utf8, is_ascii_chars, is_ascii_chars_encode_utf8, is_ascii_chars_nat_bound, valid_utf8,
};
use crate::bytes::{contents, sort_texts, sorted_texts, text_equal};
use crate::hamt::hash::same_hash;
use crate::json::{canonical_bytes, json_bytes, json_fault, Json, JsonFault};
use crate::primitives::{
    base64_url_encode, base64_url_text, sha3_256, sha3_256_bytes, text_from_utf8,
};

pub mod causal;
pub mod causal_laws;
pub mod compress;
pub mod laws;
pub mod trie;

verus! {

/// SHA3-256 digest size.
pub const HASH_SIZE: usize = 32;

/// A SHA3-256 digest.
pub type Hash = [u8; 32];

/// A Merkle root that nobody has signed.
///
/// The wrapper reminds a caller that the value is only a proof of anything when
/// it is either folded into an event root that the event's sender actually
/// signed, or signed after the fact by whoever computed it.
#[derive(Debug, Clone, Copy, PartialEq, Eq, Hash)]
pub struct UnsignedRoot(pub Hash);

impl UnsignedRoot {
    /// Unwraps the raw digest.
    #[must_use]
    pub fn into_inner(self) -> (hash: Hash)
        ensures
            hash == self.0,
    {
        self.0
    }
}

impl From<Hash> for UnsignedRoot {
    fn from(hash: Hash) -> (root: Self) {
        UnsignedRoot(hash)
    }
}

impl vstd::std_specs::convert::FromSpecImpl<Hash> for UnsignedRoot {
    open spec fn obeys_from_spec() -> bool {
        true
    }

    open spec fn from_spec(hash: Hash) -> Self {
        UnsignedRoot(hash)
    }
}

/// Errors returned by Merkle and canonical JSON operations.
#[derive(Debug, Clone, PartialEq, Eq)]
pub enum MerkleError {
    EmptyFieldName,
    InvalidFieldName,
    DuplicateField(String),
    FieldNotFound(String),
    NoLeaves,
    IntegerRange,
    UnsupportedNumber,
}

/// An error, with the texts of its names.
pub enum MerkleFault {
    EmptyFieldName,
    InvalidFieldName,
    DuplicateField(Seq<char>),
    FieldNotFound(Seq<char>),
    NoLeaves,
    IntegerRange,
    UnsupportedNumber,
}

impl View for MerkleError {
    type V = MerkleFault;

    open spec fn view(&self) -> MerkleFault {
        match *self {
            MerkleError::EmptyFieldName => MerkleFault::EmptyFieldName,
            MerkleError::InvalidFieldName => MerkleFault::InvalidFieldName,
            MerkleError::DuplicateField(name) => MerkleFault::DuplicateField(name@),
            MerkleError::FieldNotFound(name) => MerkleFault::FieldNotFound(name@),
            MerkleError::NoLeaves => MerkleFault::NoLeaves,
            MerkleError::IntegerRange => MerkleFault::IntegerRange,
            MerkleError::UnsupportedNumber => MerkleFault::UnsupportedNumber,
        }
    }
}

impl MerkleError {
    /// The error as text.
    pub fn message(&self) -> (text: String)
        ensures
            text@ == match self@ {
                MerkleFault::EmptyFieldName => "merkle: empty field name"@,
                MerkleFault::InvalidFieldName => "merkle: invalid field name"@,
                MerkleFault::DuplicateField(name) => "merkle: duplicate field: "@ + name,
                MerkleFault::FieldNotFound(name) => "merkle: field not found: "@ + name,
                MerkleFault::NoLeaves => "merkle: no leaves"@,
                MerkleFault::IntegerRange => "canonical json integer out of range"@,
                MerkleFault::UnsupportedNumber => "unsupported canonical json number"@,
            },
    {
        match self {
            MerkleError::EmptyFieldName => String::from_str("merkle: empty field name"),
            MerkleError::InvalidFieldName => String::from_str("merkle: invalid field name"),
            MerkleError::DuplicateField(name) => {
                let mut text: String = String::from_str("merkle: duplicate field: ");
                text.append(name.as_str());
                text
            },
            MerkleError::FieldNotFound(name) => {
                let mut text: String = String::from_str("merkle: field not found: ");
                text.append(name.as_str());
                text
            },
            MerkleError::NoLeaves => String::from_str("merkle: no leaves"),
            MerkleError::IntegerRange => String::from_str("canonical json integer out of range"),
            MerkleError::UnsupportedNumber => String::from_str("unsupported canonical json number"),
        }
    }
}

/// One named metadata value. The value is canonical JSON encoded before hashing.
#[derive(Debug, PartialEq, Eq)]
pub struct Field {
    pub name: String,
    pub value: Json,
}

impl Field {
    /// A field with a name and a value.
    #[must_use]
    pub fn new(name: &str, value: Json) -> (field: Self)
        ensures
            field.name@ == name@,
            field.value == value,
    {
        Field { name: String::from_str(name), value }
    }
}

/// Fields committed by [`header_root`].
///
/// `sender_localpart` and `sender_domain` are committed as independent leaves
/// (rather than a single combined `sender` leaf) so that a proof can disclose
/// and verify the sending server's identity without disclosing the sender's
/// localpart.
#[derive(Debug, Clone, PartialEq, Eq)]
pub struct Header {
    pub room_id: String,
    pub sender_localpart: String,
    pub sender_domain: String,
    pub event_type: String,
    pub state_key: Option<String>,
    pub redacts: Option<String>,
    pub depth: i64,
    pub origin_server_ts: i64,
}

/// Typed wrapper for the `prev_events` component hash in [`event_root`].
#[derive(Debug, Clone, Copy, PartialEq, Eq)]
pub struct PrevEventsHash(pub Hash);

/// Typed wrapper for the `auth_events` component hash in [`event_root`].
#[derive(Debug, Clone, Copy, PartialEq, Eq)]
pub struct AuthEventsHash(pub Hash);

/// Typed wrapper for the event header root component in [`event_root`].
#[derive(Debug, Clone, Copy, PartialEq, Eq)]
pub struct EventHeaderRoot(pub Hash);

/// Typed wrapper for the `content` component hash in [`event_root`].
#[derive(Debug, Clone, Copy, PartialEq, Eq)]
pub struct ContentHash(pub Hash);

/// Typed wrapper for the `other_signed_fields` component hash in [`event_root`].
#[derive(Debug, Clone, Copy, PartialEq, Eq)]
pub struct OtherSignedFieldsHash(pub Hash);

/// A named leaf.
#[derive(Debug, Clone)]
struct Leaf {
    name: String,
    hash: Hash,
}

/// The digest of a leaf.
pub open spec fn leaf_digest(name: Seq<u8>, value: Seq<u8>) -> Seq<u8> {
    sha3_256_bytes(encode_utf8("msc4511:leaf:v1"@) + name + seq![0u8] + value)
}

/// The digest of an inner node.
pub open spec fn inner_digest(left: Seq<u8>, right: Seq<u8>) -> Seq<u8> {
    sha3_256_bytes(encode_utf8("msc4511:node:v1"@) + left + right)
}

/// What is wrong with a field name.
pub open spec fn name_fault(name: Seq<u8>) -> Option<MerkleFault> {
    if name.len() == 0 {
        Some(MerkleFault::EmptyFieldName)
    } else if name.contains(0) {
        Some(MerkleFault::InvalidFieldName)
    } else {
        None
    }
}

/// A fault of canonical JSON.
pub open spec fn json_merkle_fault(fault: JsonFault) -> MerkleFault {
    match fault {
        JsonFault::IntegerRange => MerkleFault::IntegerRange,
        JsonFault::UnsupportedNumber => MerkleFault::UnsupportedNumber,
    }
}

/// What is wrong with a value.
pub open spec fn value_fault(value: Json) -> Option<MerkleFault> {
    match json_fault(value) {
        Some(fault) => Some(json_merkle_fault(fault)),
        None => None,
    }
}

/// What is wrong with a named value.
pub open spec fn field_fault(name: Seq<char>, value: Json) -> Option<MerkleFault> {
    if name_fault(encode_utf8(name)) is Some {
        name_fault(encode_utf8(name))
    } else {
        value_fault(value)
    }
}

/// Canonical JSON encoding used for leaf values.
///
/// # Errors
/// Returns `MerkleError::IntegerRange` when an integer is outside the exactly
/// representable range, or `MerkleError::UnsupportedNumber` for non-integer JSON
/// numbers.
pub fn canonical_json(value: &Json) -> (result: Result<Vec<u8>, MerkleError>)
    ensures
        match result {
            Ok(bytes) => value_fault(*value) is None && bytes@ == json_bytes(*value),
            Err(error) => value_fault(*value) == Some(error@),
        },
{
    match canonical_bytes(value) {
        Ok(bytes) => Ok(bytes),
        Err(fault) => Err(
            match fault {
                JsonFault::IntegerRange => MerkleError::IntegerRange,
                JsonFault::UnsupportedNumber => MerkleError::UnsupportedNumber,
            },
        ),
    }
}

/// Whether a byte string has a zero byte.
fn has_zero(bytes: &[u8]) -> (found: bool)
    ensures
        found == bytes@.contains(0),
{
    let mut index: usize = 0;
    while index < bytes.len()
        invariant
            index <= bytes.len(),
            forall|i: int| 0 <= i < index ==> bytes@[i] != 0,
        decreases bytes.len() - index,
    {
        if bytes[index] == 0 {
            proof {
                assert(bytes@[index as int] == 0);
            }
            return true;
        }
        index = index + 1;
    }
    false
}

fn validate_field_name(field_name: &str) -> (result: Result<(), MerkleError>)
    ensures
        match result {
            Ok(_) => name_fault(encode_utf8(field_name@)) is None,
            Err(error) => name_fault(encode_utf8(field_name@)) == Some(error@),
        },
{
    let bytes: &[u8] = field_name.as_bytes();
    if bytes.len() == 0 {
        return Err(MerkleError::EmptyFieldName);
    }
    if has_zero(bytes) {
        return Err(MerkleError::InvalidFieldName);
    }
    Ok(())
}

fn validate_field_name_bytes(field_name: &[u8]) -> (result: Result<(), MerkleError>)
    ensures
        match result {
            Ok(_) => name_fault(field_name@) is None && valid_utf8(field_name@),
            Err(error) => if name_fault(field_name@) is Some {
                name_fault(field_name@) == Some(error@)
            } else {
                !valid_utf8(field_name@) && error@ == MerkleFault::InvalidFieldName
            },
        },
{
    if field_name.len() == 0 {
        return Err(MerkleError::EmptyFieldName);
    }
    if has_zero(field_name) {
        return Err(MerkleError::InvalidFieldName);
    }
    match text_from_utf8(field_name) {
        Some(_) => Ok(()),
        None => Err(MerkleError::InvalidFieldName),
    }
}

fn leaf_hash_unchecked(field_name: &[u8], canonical_value: &[u8]) -> (hash: Hash)
    ensures
        hash@ == leaf_digest(field_name@, canonical_value@),
{
    let mut data: Vec<u8> = Vec::new();
    data.extend_from_slice("msc4511:leaf:v1".as_bytes());
    data.extend_from_slice(field_name);
    data.push(0);
    data.extend_from_slice(canonical_value);
    proof {
        assert(data@ =~= encode_utf8("msc4511:leaf:v1"@) + field_name@ + seq![0u8]
            + canonical_value@);
    }
    sha3_256(data.as_slice())
}

fn inner_hash(left: &Hash, right: &Hash) -> (hash: Hash)
    ensures
        hash@ == inner_digest(left@, right@),
{
    let mut data: Vec<u8> = Vec::new();
    data.extend_from_slice("msc4511:node:v1".as_bytes());
    data.extend_from_slice(left.as_slice());
    data.extend_from_slice(right.as_slice());
    proof {
        assert(data@ =~= encode_utf8("msc4511:node:v1"@) + left@ + right@);
    }
    sha3_256(data.as_slice())
}

/// Computes SHA3-256("msc4511:leaf:v1" || `field_name` || "\x00" ||
/// `canonical_value`).
///
/// # Errors
/// Returns `MerkleError::EmptyFieldName` if `field_name` is empty, or
/// `MerkleError::InvalidFieldName` if it contains a NUL byte.
pub fn leaf_hash(field_name: &str, canonical_value: &[u8]) -> (result: Result<Hash, MerkleError>)
    ensures
        match result {
            Ok(hash) => {
                &&& name_fault(encode_utf8(field_name@)) is None
                &&& hash@ == leaf_digest(encode_utf8(field_name@), canonical_value@)
            },
            Err(error) => name_fault(encode_utf8(field_name@)) == Some(error@),
        },
{
    match validate_field_name(field_name) {
        Ok(_) => Ok(leaf_hash_unchecked(field_name.as_bytes(), canonical_value)),
        Err(error) => Err(error),
    }
}

/// Computes the leaf hash for a field name supplied as raw UTF-8 bytes.
///
/// This is the validation boundary for callers that receive field names before
/// converting them to text.
///
/// # Errors
/// Returns `MerkleError::EmptyFieldName` when `field_name` is empty, or
/// `MerkleError::InvalidFieldName` when it holds a NUL byte or is not valid
/// UTF-8.
pub fn leaf_hash_bytes(field_name: &[u8], canonical_value: &[u8]) -> (result: Result<
    Hash,
    MerkleError,
>)
    ensures
        match result {
            Ok(hash) => {
                &&& name_fault(field_name@) is None
                &&& valid_utf8(field_name@)
                &&& hash@ == leaf_digest(field_name@, canonical_value@)
            },
            Err(error) => if name_fault(field_name@) is Some {
                name_fault(field_name@) == Some(error@)
            } else {
                !valid_utf8(field_name@) && error@ == MerkleFault::InvalidFieldName
            },
        },
{
    match validate_field_name_bytes(field_name) {
        Ok(_) => Ok(leaf_hash_unchecked(field_name, canonical_value)),
        Err(error) => Err(error),
    }
}

/// Computes one top-level event-root component with the standard leaf
/// construction.
///
/// # Errors
/// Returns a `MerkleError` if the field name is invalid or `value` cannot be
/// encoded as canonical JSON.
pub fn component_hash(field_name: &str, value: &Json) -> (result: Result<Hash, MerkleError>)
    ensures
        match result {
            Ok(hash) => {
                &&& field_fault(field_name@, *value) is None
                &&& hash@ == leaf_digest(encode_utf8(field_name@), json_bytes(*value))
            },
            Err(error) => field_fault(field_name@, *value) == Some(error@),
        },
{
    match validate_field_name(field_name) {
        Ok(_) => {},
        Err(error) => {
            return Err(error);
        },
    }
    match canonical_json(value) {
        Ok(canonical) => Ok(
            leaf_hash_unchecked(field_name.as_bytes(), canonical.as_slice()),
        ),
        Err(error) => Err(error),
    }
}

/// The fixed component names are valid field names.
proof fn component_names()
    ensures
        name_fault(encode_utf8("redacted_content"@)) is None,
        name_fault(encode_utf8("redactable_content"@)) is None,
{
    reveal_strlit("redacted_content");
    reveal_strlit("redactable_content");
    plain_name("redacted_content"@);
    plain_name("redactable_content"@);
}

/// A name of ASCII characters other than NUL is a valid field name.
proof fn plain_name(name: Seq<char>)
    requires
        name.len() > 0,
        forall|i: int| 0 <= i < name.len() ==> '\0' < #[trigger] name[i] <= '\u{7f}',
    ensures
        name_fault(encode_utf8(name)) is None,
{
    is_ascii_chars_encode_utf8(name);
    is_ascii_chars_nat_bound(name);
    let bytes = encode_utf8(name);
    assert forall|i: int| 0 <= i < bytes.len() implies bytes[i] != 0 by {
        assert('\0' < name[i] <= '\u{7f}');
        assert(bytes[i] == name[i] as u8);
    }
}

/// Computes the `redacted_content_hash` leaf of the `content_hash` split: the
/// leaf hash of the event body fields that survive redaction.
///
/// # Errors
/// Returns a `MerkleError` if `value` cannot be canonically encoded.
pub fn redacted_content_hash(value: &Json) -> (result: Result<Hash, MerkleError>)
    ensures
        match result {
            Ok(hash) => {
                &&& value_fault(*value) is None
                &&& hash@ == leaf_digest(encode_utf8("redacted_content"@), json_bytes(*value))
            },
            Err(error) => value_fault(*value) == Some(error@),
        },
{
    proof {
        component_names();
    }
    component_hash("redacted_content", value)
}

/// Computes the `redactable_content_hash` leaf of the `content_hash` split: the
/// leaf hash of the event body fields that redaction strips.
///
/// # Errors
/// Returns a `MerkleError` if `value` cannot be canonically encoded.
pub fn redactable_content_hash(value: &Json) -> (result: Result<Hash, MerkleError>)
    ensures
        match result {
            Ok(hash) => {
                &&& value_fault(*value) is None
                &&& hash@ == leaf_digest(encode_utf8("redactable_content"@), json_bytes(*value))
            },
            Err(error) => value_fault(*value) == Some(error@),
        },
{
    proof {
        component_names();
    }
    component_hash("redactable_content", value)
}

/// Hashes both halves of event content that was split by the redaction rules of
/// a room version. The returned pair is `(redacted_content_hash,
/// redactable_content_hash)`.
///
/// # Errors
/// Returns a `MerkleError` if either split content value cannot be encoded as
/// canonical JSON.
pub fn split_content_hashes(redacted: &Json, redactable: &Json) -> (result: Result<
    (Hash, Hash),
    MerkleError,
>)
    ensures
        match result {
            Ok((kept, stripped)) => {
                &&& value_fault(*redacted) is None
                &&& value_fault(*redactable) is None
                &&& kept@ == leaf_digest(encode_utf8("redacted_content"@), json_bytes(*redacted))
                &&& stripped@ == leaf_digest(
                    encode_utf8("redactable_content"@),
                    json_bytes(*redactable),
                )
            },
            Err(error) => if value_fault(*redacted) is Some {
                value_fault(*redacted) == Some(error@)
            } else {
                value_fault(*redactable) == Some(error@)
            },
        },
{
    match redacted_content_hash(redacted) {
        Ok(kept) => match redactable_content_hash(redactable) {
            Ok(stripped) => Ok((kept, stripped)),
            Err(error) => Err(error),
        },
        Err(error) => Err(error),
    }
}

/// The digest of content from those of what redaction keeps and what it strips.
pub open spec fn content_digest(kept: Seq<u8>, stripped: Seq<u8>) -> Seq<u8> {
    inner_digest(kept, stripped)
}

/// Combines `redacted_content_hash` and `redactable_content_hash` into the
/// top-level `content_hash` component.
#[must_use]
pub fn content_hash(redacted_content_hash: Hash, redactable_content_hash: Hash) -> (hash:
    ContentHash)
    ensures
        hash.0@ == content_digest(redacted_content_hash@, redactable_content_hash@),
{
    ContentHash(inner_hash(&redacted_content_hash, &redactable_content_hash))
}

/// The digest of an event from the digests of its five components.
pub open spec fn event_root_digest(
    prev: Seq<u8>,
    auth: Seq<u8>,
    header: Seq<u8>,
    content: Seq<u8>,
    other: Seq<u8>,
) -> Seq<u8> {
    sha3_256_bytes(encode_utf8("msc4511:root:v1"@) + prev + auth + header + content + other)
}

/// Computes SHA3-256("msc4511:root:v1" || `prev_events_hash` ||
/// `auth_events_hash` || `event_header_root` || `content_hash` ||
/// `other_signed_fields_hash`).
#[must_use]
pub fn event_root(
    prev_events_hash: PrevEventsHash,
    auth_events_hash: AuthEventsHash,
    event_header_root: EventHeaderRoot,
    content_hash: ContentHash,
    other_signed_fields_hash: OtherSignedFieldsHash,
) -> (hash: Hash)
    ensures
        hash@ == event_root_digest(
            prev_events_hash.0@,
            auth_events_hash.0@,
            event_header_root.0@,
            content_hash.0@,
            other_signed_fields_hash.0@,
        ),
{
    let mut data: Vec<u8> = Vec::new();
    data.extend_from_slice("msc4511:root:v1".as_bytes());
    data.extend_from_slice(prev_events_hash.0.as_slice());
    data.extend_from_slice(auth_events_hash.0.as_slice());
    data.extend_from_slice(event_header_root.0.as_slice());
    data.extend_from_slice(content_hash.0.as_slice());
    data.extend_from_slice(other_signed_fields_hash.0.as_slice());
    proof {
        assert(data@ =~= encode_utf8("msc4511:root:v1"@) + prev_events_hash.0@
            + auth_events_hash.0@ + event_header_root.0@ + content_hash.0@
            + other_signed_fields_hash.0@);
    }
    sha3_256(data.as_slice())
}

/// Derives "$" || unpadded base64url(`event_root`).
#[must_use]
pub fn event_id(event_root: Hash) -> (id: String)
    ensures
        id@ == "$"@ + base64_url_text(event_root@),
{
    let mut id: String = String::from_str("$");
    let text: String = base64_url_encode(event_root.as_slice());
    id.append(text.as_str());
    id
}

/// The largest power of two below a number that is at least two.
pub open spec fn split_point(n: nat) -> nat
    decreases n,
{
    if n <= 2 {
        1
    } else {
        2 * split_point((n + 1) / 2)
    }
}

/// The split leaves leaves on both sides, and at most as many on the right.
pub proof fn split_point_range(n: nat)
    requires
        n >= 2,
    ensures
        1 <= split_point(n) < n <= 2 * split_point(n),
    decreases n,
{
    if n > 2 {
        split_point_range((n + 1) / 2);
    }
}

/// The root of a tree over leaves: the left subtree takes the largest power of
/// two of leaves that leaves some for the right.
pub open spec fn tree_root(hashes: Seq<Seq<u8>>) -> Seq<u8>
    decreases hashes.len(),
{
    if hashes.len() == 0 {
        Seq::empty()
    } else if hashes.len() == 1 {
        hashes[0]
    } else {
        let k = split_point(hashes.len()) as int;
        if 0 < k < hashes.len() {
            inner_digest(tree_root(hashes.take(k)), tree_root(hashes.skip(k)))
        } else {
            Seq::empty()
        }
    }
}

fn largest_power_of_two_less_than(n: usize) -> (k: usize)
    requires
        n >= 2,
    ensures
        k == split_point(n as nat),
        1 <= k < n,
    decreases n,
{
    proof {
        split_point_range(n as nat);
    }
    if n <= 2 {
        1
    } else {
        2 * largest_power_of_two_less_than(n / 2 + n % 2)
    }
}

/// The contents of hashes.
pub open spec fn hash_contents(hashes: Seq<Hash>) -> Seq<Seq<u8>> {
    Seq::new(hashes.len(), |i: int| hashes[i]@)
}

fn merkle_root(hashes: &[Hash]) -> (root: Option<Hash>)
    ensures
        match root {
            Some(root) => hashes@.len() > 0 && root@ == tree_root(hash_contents(hashes@)),
            None => hashes@.len() == 0,
        },
    decreases hashes@.len(),
{
    if hashes.len() == 0 {
        return None;
    }
    if hashes.len() == 1 {
        return Some(hashes[0]);
    }
    let k: usize = largest_power_of_two_less_than(hashes.len());
    let left: &[Hash] = vstd::slice::slice_subrange(hashes, 0, k);
    let right: &[Hash] = vstd::slice::slice_subrange(hashes, k, hashes.len());
    proof {
        let all = hash_contents(hashes@);
        assert(hash_contents(left@) =~= all.take(k as int));
        assert(hash_contents(right@) =~= all.skip(k as int));
    }
    match (merkle_root(left), merkle_root(right)) {
        (Some(left_root), Some(right_root)) => Some(inner_hash(&left_root, &right_root)),
        _ => None,
    }
}

/// Which side a sibling hash sits on relative to the running hash in a
/// [`ProofStep`].
#[derive(Debug, Clone, Copy, PartialEq, Eq, Structural)]
pub enum Side {
    Left,
    Right,
}

/// One sibling hash in a Merkle path, ordered leaf-to-root: applying each step
/// in order (combining the running hash with `hash` on the named `side`)
/// reconstructs the tree root.
#[derive(Debug, Clone, Copy)]
pub struct ProofStep {
    pub side: Side,
    pub hash: Hash,
}

/// The sides and hashes of a path.
pub open spec fn path_contents(path: Seq<ProofStep>) -> Seq<(Side, Seq<u8>)> {
    Seq::new(path.len(), |i: int| (path[i].side, path[i].hash@))
}

/// The siblings on the way from a leaf to the root.
pub open spec fn tree_path(hashes: Seq<Seq<u8>>, target: int) -> Seq<(Side, Seq<u8>)>
    decreases hashes.len(),
{
    let k = split_point(hashes.len()) as int;
    if hashes.len() <= 1 || !(0 < k < hashes.len()) {
        Seq::empty()
    } else if target < k {
        tree_path(hashes.take(k), target).push((Side::Right, tree_root(hashes.skip(k))))
    } else {
        tree_path(hashes.skip(k), target - k).push((Side::Left, tree_root(hashes.take(k))))
    }
}

/// The root that a leaf and a path lead to.
pub open spec fn fold_path(leaf: Seq<u8>, path: Seq<(Side, Seq<u8>)>) -> Seq<u8>
    decreases path.len(),
{
    if path.len() == 0 {
        leaf
    } else {
        let below = fold_path(leaf, path.drop_last());
        match path.last().0 {
            Side::Left => inner_digest(path.last().1, below),
            Side::Right => inner_digest(below, path.last().1),
        }
    }
}

/// The path of a leaf leads from the leaf to the root.
pub proof fn tree_path_folds(hashes: Seq<Seq<u8>>, target: int)
    requires
        0 <= target < hashes.len(),
    ensures
        fold_path(hashes[target], tree_path(hashes, target)) == tree_root(hashes),
    decreases hashes.len(),
{
    if hashes.len() > 1 {
        split_point_range(hashes.len());
        let k = split_point(hashes.len()) as int;
        if target < k {
            tree_path_folds(hashes.take(k), target);
            let path = tree_path(hashes.take(k), target);
            let step = (Side::Right, tree_root(hashes.skip(k)));
            assert(path.push(step).drop_last() =~= path);
            assert(path.push(step).last() == step);
            assert(hashes.take(k)[target] == hashes[target]);
        } else {
            tree_path_folds(hashes.skip(k), target - k);
            let path = tree_path(hashes.skip(k), target - k);
            let step = (Side::Left, tree_root(hashes.take(k)));
            assert(path.push(step).drop_last() =~= path);
            assert(path.push(step).last() == step);
            assert(hashes.skip(k)[target - k] == hashes[target]);
        }
    }
}

/// Computes the root over `hashes` and the ordered (leaf-to-root) sibling path
/// for `hashes[target]`, with the split of `merkle_root`.
fn merkle_root_and_path(hashes: &[Hash], target: usize) -> (found: Option<(Hash, Vec<ProofStep>)>)
    requires
        hashes@.len() > 0 ==> target < hashes@.len(),
    ensures
        match found {
            Some((root, path)) => {
                &&& hashes@.len() > 0
                &&& root@ == tree_root(hash_contents(hashes@))
                &&& path_contents(path@) == tree_path(hash_contents(hashes@), target as int)
            },
            None => hashes@.len() == 0,
        },
    decreases hashes@.len(),
{
    let ghost all = hash_contents(hashes@);
    if hashes.len() == 0 {
        return None;
    }
    if hashes.len() == 1 {
        let path: Vec<ProofStep> = Vec::new();
        proof {
            assert(path_contents(path@) =~= tree_path(all, target as int));
        }
        return Some((hashes[0], path));
    }
    let k: usize = largest_power_of_two_less_than(hashes.len());
    let left: &[Hash] = vstd::slice::slice_subrange(hashes, 0, k);
    let right: &[Hash] = vstd::slice::slice_subrange(hashes, k, hashes.len());
    proof {
        assert(hash_contents(left@) =~= all.take(k as int));
        assert(hash_contents(right@) =~= all.skip(k as int));
    }
    if target < k {
        match (merkle_root_and_path(left, target), merkle_root(right)) {
            (Some((left_root, path)), Some(right_root)) => {
                let ghost before = path@;
                let mut path: Vec<ProofStep> = path;
                path.push(ProofStep { side: Side::Right, hash: right_root });
                proof {
                    assert(path_contents(path@) =~= path_contents(before).push(
                        (Side::Right, right_root@),
                    ));
                }
                Some((inner_hash(&left_root, &right_root), path))
            },
            _ => None,
        }
    } else {
        match (merkle_root_and_path(right, target - k), merkle_root(left)) {
            (Some((right_root, path)), Some(left_root)) => {
                let ghost before = path@;
                let mut path: Vec<ProofStep> = path;
                path.push(ProofStep { side: Side::Left, hash: left_root });
                proof {
                    assert(path_contents(path@) =~= path_contents(before).push(
                        (Side::Left, left_root@),
                    ));
                }
                Some((inner_hash(&left_root, &right_root), path))
            },
            _ => None,
        }
    }
}

/// Recomputes the root from `leaf_hash` and `path` (leaf-to-root ordered
/// siblings) and reports whether it matches `root`.
#[must_use]
pub fn verify_leaf_path(leaf_hash: Hash, path: &[ProofStep], root: Hash) -> (result: bool)
    ensures
        result == (fold_path(leaf_hash@, path_contents(path@)) == root@),
{
    let ghost steps = path_contents(path@);
    let mut current: Hash = leaf_hash;
    let mut index: usize = 0;
    proof {
        assert(steps.take(0).len() == 0);
    }
    while index < path.len()
        invariant
            index <= path.len(),
            steps == path_contents(path@),
            current@ == fold_path(leaf_hash@, steps.take(index as int)),
        decreases path.len() - index,
    {
        let step: ProofStep = path[index];
        proof {
            let next = steps.take(index + 1);
            assert(next.drop_last() =~= steps.take(index as int));
            assert(next.last() == (step.side, step.hash@));
        }
        current = match step.side {
            Side::Left => inner_hash(&step.hash, &current),
            Side::Right => inner_hash(&current, &step.hash),
        };
        index = index + 1;
    }
    proof {
        assert(steps.take(index as int) =~= steps);
    }
    same_hash(&current, &root)
}

/// The names of fields.
pub open spec fn field_names(fields: Seq<Field>) -> Seq<Seq<char>> {
    Seq::new(fields.len(), |i: int| fields[i].name@)
}

/// The first fault among the first fields.
pub open spec fn first_fault(fields: Seq<Field>, n: nat) -> Option<MerkleFault>
    decreases n,
{
    if n == 0 {
        None
    } else if first_fault(fields, (n - 1) as nat) is Some {
        first_fault(fields, (n - 1) as nat)
    } else {
        field_fault(fields[n - 1].name@, fields[n - 1].value)
    }
}

/// A fault among the first fields stays the first one.
pub proof fn first_fault_stays(fields: Seq<Field>, n: nat, m: nat)
    requires
        n <= m,
        first_fault(fields, n) is Some,
    ensures
        first_fault(fields, m) == first_fault(fields, n),
    decreases m,
{
    if n < m {
        first_fault_stays(fields, n, (m - 1) as nat);
    }
}

/// The first text, from a place on, that its neighbour repeats.
pub open spec fn repeated(texts: Seq<Seq<char>>, from: nat) -> Option<Seq<char>>
    decreases texts.len() - from,
{
    if from + 1 >= texts.len() {
        None
    } else if texts[from as int] == texts[from as int + 1] {
        Some(texts[from as int])
    } else {
        repeated(texts, from + 1)
    }
}

/// What is wrong with a list of fields: the first fault of a field, or the
/// least name that occurs twice.
pub open spec fn fields_fault(fields: Seq<Field>) -> Option<MerkleFault> {
    if first_fault(fields, fields.len()) is Some {
        first_fault(fields, fields.len())
    } else {
        match repeated(sorted_texts(field_names(fields)), 0) {
            Some(name) => Some(MerkleFault::DuplicateField(name)),
            None => None,
        }
    }
}

/// The place of the first field with a name.
pub open spec fn field_place(fields: Seq<Field>, name: Seq<char>, from: nat) -> nat
    decreases fields.len() - from,
{
    if from >= fields.len() || fields[from as int].name@ == name {
        from
    } else {
        field_place(fields, name, from + 1)
    }
}

/// The leaf of the field with a name.
pub open spec fn named_digest(fields: Seq<Field>, name: Seq<char>) -> Seq<u8> {
    leaf_digest(
        encode_utf8(name),
        json_bytes(fields[field_place(fields, name, 0) as int].value),
    )
}

/// The leaves of fields in ascending order of their names.
pub open spec fn sorted_digests(fields: Seq<Field>) -> Seq<Seq<u8>> {
    let names = sorted_texts(field_names(fields));
    Seq::new(names.len(), |i: int| named_digest(fields, names[i]))
}

/// The names and hashes of leaves are those of the fields in name order.
spec fn leaves_of(leaves: Seq<Leaf>, fields: Seq<Field>, n: nat) -> bool {
    let names = sorted_texts(field_names(fields));
    &&& leaves.len() == n
    &&& forall|i: int|
        0 <= i < n ==> (#[trigger] leaves[i]).name@ == names[i] && leaves[i].hash@
            == named_digest(fields, names[i])
}

fn field_leaf(field: &Field) -> (result: Result<Hash, MerkleError>)
    ensures
        match result {
            Ok(hash) => {
                &&& field_fault(field.name@, field.value) is None
                &&& hash@ == leaf_digest(encode_utf8(field.name@), json_bytes(field.value))
            },
            Err(error) => field_fault(field.name@, field.value) == Some(error@),
        },
{
    component_hash(field.name.as_str(), &field.value)
}

fn find_field(fields: &[Field], name: &str) -> (place: usize)
    ensures
        place == field_place(fields@, name@, 0),
        place <= fields@.len(),
        field_names(fields@).contains(name@) ==> place < fields@.len(),
{
    let mut place: usize = 0;
    while place < fields.len()
        invariant
            place <= fields.len(),
            field_place(fields@, name@, 0) == field_place(fields@, name@, place as nat),
            forall|i: int| 0 <= i < place ==> (#[trigger] fields@[i]).name@ != name@,
        decreases fields.len() - place,
    {
        if text_equal(fields[place].name.as_str(), name) {
            return place;
        }
        place = place + 1;
    }
    proof {
        if field_names(fields@).contains(name@) {
            let i = choose|i: int|
                0 <= i < field_names(fields@).len() && field_names(fields@)[i] == name@;
            assert(fields@[i].name@ == name@);
        }
    }
    place
}

fn leaves(fields: &[Field]) -> (result: Result<Vec<Leaf>, MerkleError>)
    ensures
        match result {
            Ok(leaves) => {
                &&& fields_fault(fields@) is None
                &&& leaves_of(leaves@, fields@, fields@.len())
            },
            Err(error) => fields_fault(fields@) == Some(error@),
        },
{
    let mut hashes: Vec<Hash> = Vec::new();
    let mut names: Vec<&str> = Vec::new();
    let mut index: usize = 0;
    while index < fields.len()
        invariant
            index <= fields.len(),
            hashes@.len() == index,
            names@.len() == index,
            first_fault(fields@, index as nat) is None,
            forall|i: int| 0 <= i < index ==> (#[trigger] names@[i])@ == fields@[i].name@,
            forall|i: int|
                0 <= i < index ==> (#[trigger] hashes@[i])@ == leaf_digest(
                    encode_utf8(fields@[i].name@),
                    json_bytes(fields@[i].value),
                ),
        decreases fields.len() - index,
    {
        match field_leaf(&fields[index]) {
            Ok(hash) => {
                hashes.push(hash);
            },
            Err(error) => {
                proof {
                    first_fault_stays(fields@, (index + 1) as nat, fields@.len());
                }
                return Err(error);
            },
        }
        names.push(fields[index].name.as_str());
        index = index + 1;
    }
    let sorted: Vec<&str> = sort_texts(names.as_slice());
    let ghost order = sorted_texts(field_names(fields@));
    proof {
        assert(contents(names@) =~= field_names(fields@));
        assert(contents(sorted@) == order);
        sorted_names(field_names(fields@));
    }
    let mut at: usize = 0;
    while sorted.len() > 0 && at < sorted.len() - 1
        invariant
            at <= sorted.len(),
            contents(sorted@) == order,
            order == sorted_texts(field_names(fields@)),
            first_fault(fields@, fields@.len()) is None,
            repeated(order, 0) == repeated(order, at as nat),
        decreases sorted.len() - at,
    {
        proof {
            assert(order[at as int] == sorted@[at as int]@);
            assert(order[at + 1] == sorted@[at + 1]@);
        }
        if text_equal(sorted[at], sorted[at + 1]) {
            return Err(MerkleError::DuplicateField(String::from_str(sorted[at])));
        }
        at = at + 1;
    }
    let mut leaves: Vec<Leaf> = Vec::new();
    while leaves.len() < sorted.len()
        invariant
            hashes@.len() == fields@.len(),
            sorted@.len() == fields@.len(),
            contents(sorted@) == order,
            order == sorted_texts(field_names(fields@)),
            leaves@.len() <= sorted@.len(),
            leaves_of(leaves@, fields@, leaves@.len()),
            forall|i: int|
                0 <= i < order.len() ==> field_names(fields@).contains(#[trigger] order[i]),
            forall|i: int|
                0 <= i < fields@.len() ==> (#[trigger] hashes@[i])@ == leaf_digest(
                    encode_utf8(fields@[i].name@),
                    json_bytes(fields@[i].value),
                ),
        decreases sorted.len() - leaves.len(),
    {
        let name: &str = sorted[leaves.len()];
        proof {
            assert(order[leaves@.len() as int] == name@);
            place_has_name(fields@, name@, 0);
        }
        let place: usize = find_field(fields, name);
        leaves.push(Leaf { name: String::from_str(name), hash: hashes[place] });
    }
    Ok(leaves)
}

/// The place of a name that occurs holds the name.
pub proof fn place_has_name(fields: Seq<Field>, name: Seq<char>, from: nat)
    ensures
        field_place(fields, name, from) < fields.len() ==> fields[field_place(
            fields,
            name,
            from,
        ) as int].name@ == name,
    decreases fields.len() - from,
{
    if from < fields.len() && fields[from as int].name@ != name {
        place_has_name(fields, name, from + 1);
    }
}

/// Sorting names keeps their number and each of them.
pub proof fn sorted_names(names: Seq<Seq<char>>)
    ensures
        sorted_texts(names).len() == names.len(),
        forall|i: int|
            0 <= i < names.len() ==> names.contains(#[trigger] sorted_texts(names)[i]),
{
    crate::bytes::text_order_total();
    names.lemma_sort_by_ensures(crate::bytes::text_order());
    let sorted = sorted_texts(names);
    names.to_multiset_ensures();
    sorted.to_multiset_ensures();
    assert forall|i: int| 0 <= i < names.len() implies names.contains(#[trigger] sorted[i]) by {
        assert(sorted.contains(sorted[i]));
        assert(names.to_multiset().count(sorted[i]) > 0);
    }
}

/// Computes the Merkle root over the fields' leaves in ascending name order.
///
/// # Errors
/// Returns a `MerkleError` when there are no fields, duplicate field names, an
/// invalid field name, or a field value that cannot be canonically encoded.
pub fn root(fields: &[Field]) -> (result: Result<Hash, MerkleError>)
    ensures
        match result {
            Ok(hash) => {
                &&& fields@.len() > 0
                &&& fields_fault(fields@) is None
                &&& hash@ == tree_root(sorted_digests(fields@))
            },
            Err(error) => if fields_fault(fields@) is Some {
                fields_fault(fields@) == Some(error@)
            } else {
                fields@.len() == 0 && error@ == MerkleFault::NoLeaves
            },
        },
{
    match leaves(fields) {
        Ok(leaves) => {
            let hashes: Vec<Hash> = leaf_hashes(&leaves);
            proof {
                sorted_names(field_names(fields@));
                assert(hash_contents(hashes@) =~= sorted_digests(fields@));
            }
            match merkle_root(hashes.as_slice()) {
                Some(hash) => Ok(hash),
                None => Err(MerkleError::NoLeaves),
            }
        },
        Err(error) => Err(error),
    }
}

fn leaf_hashes(leaves: &Vec<Leaf>) -> (hashes: Vec<Hash>)
    ensures
        hashes@.len() == leaves@.len(),
        forall|i: int| 0 <= i < leaves@.len() ==> #[trigger] hashes@[i] == leaves@[i].hash,
{
    let mut hashes: Vec<Hash> = Vec::new();
    let mut index: usize = 0;
    while index < leaves.len()
        invariant
            index <= leaves.len(),
            hashes@.len() == index,
            forall|i: int| 0 <= i < index ==> #[trigger] hashes@[i] == leaves@[i].hash,
        decreases leaves.len() - index,
    {
        hashes.push(leaves[index].hash);
        index = index + 1;
    }
    hashes
}

/// Where a name stands among the fields in name order.
pub open spec fn name_rank(fields: Seq<Field>, name: Seq<char>, at: int) -> bool {
    let names = sorted_texts(field_names(fields));
    &&& 0 <= at < names.len()
    &&& names[at] == name
    &&& forall|i: int| 0 <= i < at ==> #[trigger] names[i] != name
}

/// Computes the ordered (leaf-to-root) sibling path proving `field_name`'s leaf
/// is included in the root over `fields`, along with that root.
///
/// # Errors
/// Returns a `MerkleError` if `fields` cannot be canonicalized or contains a
/// duplicate field name, or `MerkleError::FieldNotFound` if no field named
/// `field_name` is present.
pub fn leaf_path(fields: &[Field], field_name: &str) -> (result: Result<
    (Vec<ProofStep>, Hash),
    MerkleError,
>)
    ensures
        match result {
            Ok((path, hash)) => {
                &&& fields_fault(fields@) is None
                &&& hash@ == tree_root(sorted_digests(fields@))
                &&& exists|at: int| #[trigger]
                    name_rank(fields@, field_name@, at) && path_contents(path@) == tree_path(
                        sorted_digests(fields@),
                        at,
                    )
            },
            Err(error) => if fields_fault(fields@) is Some {
                fields_fault(fields@) == Some(error@)
            } else {
                &&& !field_names(fields@).contains(field_name@)
                &&& error@ == MerkleFault::FieldNotFound(field_name@)
            },
        },
{
    match leaves(fields) {
        Ok(leaves) => {
            let hashes: Vec<Hash> = leaf_hashes(&leaves);
            let ghost names = sorted_texts(field_names(fields@));
            proof {
                sorted_names(field_names(fields@));
                assert(hash_contents(hashes@) =~= sorted_digests(fields@));
            }
            let mut at: usize = 0;
            while at < leaves.len()
                invariant
                    at <= leaves.len(),
                    leaves_of(leaves@, fields@, fields@.len()),
                    names == sorted_texts(field_names(fields@)),
                    names.len() == leaves@.len(),
                    hashes@.len() == leaves@.len(),
                    hash_contents(hashes@) == sorted_digests(fields@),
                    fields_fault(fields@) is None,
                    forall|i: int| 0 <= i < at ==> #[trigger] names[i] != field_name@,
                decreases leaves.len() - at,
            {
                proof {
                    assert(leaves@[at as int].name@ == names[at as int]);
                }
                if text_equal(leaves[at].name.as_str(), field_name) {
                    proof {
                        assert(name_rank(fields@, field_name@, at as int));
                    }
                    return match merkle_root_and_path(hashes.as_slice(), at) {
                        Some((hash, path)) => Ok((path, hash)),
                        None => Err(MerkleError::NoLeaves),
                    };
                }
                at = at + 1;
            }
            proof {
                if field_names(fields@).contains(field_name@) {
                    name_sorted(field_names(fields@), field_name@);
                }
            }
            Err(MerkleError::FieldNotFound(String::from_str(field_name)))
        },
        Err(error) => Err(error),
    }
}

/// A name is among the names in order.
pub proof fn name_sorted(names: Seq<Seq<char>>, name: Seq<char>)
    requires
        names.contains(name),
    ensures
        exists|i: int| 0 <= i < sorted_texts(names).len() && sorted_texts(names)[i] == name,
{
    crate::bytes::text_order_total();
    names.lemma_sort_by_ensures(crate::bytes::text_order());
    let sorted = sorted_texts(names);
    names.to_multiset_ensures();
    sorted.to_multiset_ensures();
    assert(sorted.to_multiset().count(name) > 0);
    assert(sorted.contains(name));
}

/// The path that is computed for a field proves the field's leaf against the
/// root that is computed for the fields.
pub proof fn leaf_path_verifies(fields: Seq<Field>, name: Seq<char>, at: int)
    requires
        name_rank(fields, name, at),
    ensures
        fold_path(named_digest(fields, name), tree_path(sorted_digests(fields), at)) == tree_root(
            sorted_digests(fields),
        ),
{
    tree_path_folds(sorted_digests(fields), at);
}

/// The value of an optional text.
pub open spec fn is_optional_text(value: Json, text: Option<Seq<char>>) -> bool {
    match text {
        Some(text) => value matches Json::Text(held) && held@ == text,
        None => value == Json::Null,
    }
}

/// The contents of an optional text.
pub open spec fn optional_text(text: Option<String>) -> Option<Seq<char>> {
    match text {
        Some(text) => Some(text@),
        None => None,
    }
}

/// The fields that a header commits.
pub open spec fn header_fields(header: Header, fields: Seq<Field>) -> bool {
    &&& fields.len() == 8
    &&& fields[0].name@ == "depth"@ && fields[0].value == Json::Integer(header.depth)
    &&& fields[1].name@ == "origin_server_ts"@ && fields[1].value == Json::Integer(
        header.origin_server_ts,
    )
    &&& fields[2].name@ == "redacts"@ && is_optional_text(
        fields[2].value,
        optional_text(header.redacts),
    )
    &&& fields[3].name@ == "room_id"@ && is_optional_text(
        fields[3].value,
        Some(header.room_id@),
    )
    &&& fields[4].name@ == "sender_domain"@ && is_optional_text(
        fields[4].value,
        Some(header.sender_domain@),
    )
    &&& fields[5].name@ == "sender_localpart"@ && is_optional_text(
        fields[5].value,
        Some(header.sender_localpart@),
    )
    &&& fields[6].name@ == "state_key"@ && is_optional_text(
        fields[6].value,
        optional_text(header.state_key),
    )
    &&& fields[7].name@ == "type"@ && is_optional_text(
        fields[7].value,
        Some(header.event_type@),
    )
}

fn optional_value(text: &Option<String>) -> (value: Json)
    ensures
        is_optional_text(value, optional_text(*text)),
{
    match text {
        Some(text) => Json::Text(text.clone()),
        None => Json::Null,
    }
}

/// The root of a header's fields, or why there is none.
pub open spec fn header_rooted(header: Header, result: Result<EventHeaderRoot, MerkleError>) -> bool {
    exists|fields: Seq<Field>| #[trigger]
        header_fields(header, fields) && match result {
            Ok(root) => {
                &&& fields_fault(fields) is None
                &&& root.0@ == tree_root(sorted_digests(fields))
            },
            Err(error) => fields_fault(fields) == Some(error@),
        }
}

/// Computes `header_root` over `room_id`, `sender_localpart`, `sender_domain`,
/// `type`, `state_key`, `redacts`, `depth`, and `origin_server_ts`. Missing
/// optional fields are encoded as `null`.
///
/// Returns the typed [`EventHeaderRoot`] rather than a bare hash: this root's
/// only legitimate use is as an [`event_root`] component.
///
/// # Errors
/// Returns a `MerkleError` if one of the header fields cannot be canonically
/// encoded.
pub fn header_root(header: &Header) -> (result: Result<EventHeaderRoot, MerkleError>)
    ensures
        header_rooted(*header, result),
{
    let mut fields: Vec<Field> = Vec::new();
    fields.push(Field::new("depth", Json::Integer(header.depth)));
    fields.push(Field::new("origin_server_ts", Json::Integer(header.origin_server_ts)));
    fields.push(Field::new("redacts", optional_value(&header.redacts)));
    fields.push(Field::new("room_id", Json::Text(header.room_id.clone())));
    fields.push(Field::new("sender_domain", Json::Text(header.sender_domain.clone())));
    fields.push(Field::new("sender_localpart", Json::Text(header.sender_localpart.clone())));
    fields.push(Field::new("state_key", optional_value(&header.state_key)));
    fields.push(Field::new("type", Json::Text(header.event_type.clone())));
    proof {
        assert(header_fields(*header, fields@));
    }
    match root(fields.as_slice()) {
        Ok(hash) => Ok(EventHeaderRoot(hash)),
        Err(error) => Err(error),
    }
}

} // verus!
