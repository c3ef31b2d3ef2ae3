//! Hash array mapped trie primitives used by higher-level state handling.
//!
//! - `bitmap`: slots of a node and their compressed positions
//! - `hash`: keyed structural hashing for subtree identity
//! - `codec`: dense encoding of keys and values
//! - `persist`: dense encoding of persisted internal nodes
//! - `node`: nodes, what a trie holds, and its canonical form
//! - `construct`, `read`, `mutate`, `walk`: building, looking up, changing and
//!   traversing a trie
//! - `delta`, `sweep`: subtree differencing and reachability
//! - `store`, `descend`: mutations that tell which nodes to persist, and lookup
//!   over persisted nodes
//! - `audit`, `gc`: which persisted nodes live roots reach, and reference counts
//! - `laws`, `build_laws`, `delta_laws`, `gc_laws`: what holds of the trie as a whole

pub mod audit;
pub mod bitmap;
pub mod build_laws;
pub mod codec;
pub mod construct;
pub mod delta;
pub mod delta_laws;
pub mod descend;
pub mod edit;
pub mod errors;
pub mod gc;
pub mod gc_laws;
pub mod hash;
pub mod laws;
pub mod mutate;
pub mod node;
pub mod outcome_laws;
pub mod persist;
pub mod read;
pub mod slots;
pub mod store;
pub mod sweep;
pub mod table;
pub mod walk;

pub use audit::{
    bitmap_node_reachability_audit, node_reachability_audit, unreachable_node_hashes,
    BitmapAuditError, BitmapReachabilityAudit, IndexedUniverse, NodeReachabilityAudit,
};
pub use construct::{build_hamt, build_hamt_root_handle, build_hamt_with_key_hash, HamtBuildError};
pub use delta::{
    diff_hamt_nodes, diff_node_hashes, isolate_delta, reachable_node_hashes, Delta, DeltaResult,
    NodeHashDelta,
};
pub use descend::{descend_level, DescendError, DescendResult, KeyPathHash, RequestedNode};
pub use hash::{state_group_id_from_lthash, RootHandle, StateGroupId, StructuralHash};
pub use mutate::{insert, insert_with_key_hash, remove, remove_with_key_hash, HamtMutateError};
pub use node::{HamtNode, NodeRef};
pub use persist::PersistedInternalNode;
pub use store::{
    persist_chain, persist_chain_with_key_hash, persist_mutation, persist_mutation_with_key_hash,
    persist_mutations, persist_mutations_with_key_hash, ChainStep,
};
pub use sweep::walk_reachable_node_hashes;
pub use walk::HamtTraversalError;
