//! Set reconciliation over the binary field with 2^64 elements.

use vstd::prelude::*;

pub mod algebraic;
pub mod client;
pub mod client_laws;
pub mod element_laws;
pub mod event_graph;
pub mod field;
pub mod frame;
pub mod frame_laws;
pub mod gf64;
pub mod gf64_simd;
pub mod pinsketch;
pub mod polynomial;
pub mod quadratic;
pub mod recurrence;
pub mod resident;
pub mod search_laws;
pub mod server;
pub mod server_laws;
pub mod splitting;
pub mod triage;
pub mod triage_laws;
pub mod xor_sum;
pub mod xxh3;

pub use algebraic::{
    gf64_mul, verify_residual, AlgebraicError, ElementHash, EventIdFormat, RoomAccumulator,
    SyndromeSketch, MAX_LOCAL_SKETCH_DECODE_CAPACITY, MAX_SKETCH_CAPACITY,
};
pub use client::{ClientAction, ReconciliationClient, RemoteDigest};
pub use event_graph::EventGraph;
pub use resident::{ResidentKernel, STRATA_COUNT, STRATUM_CAPACITY};
pub use server::{
    build_bucket_sketches, compute_frame_digest, ForwardGraph, H64Index, ReconciliationContext,
};
pub use triage::{
    decode_bucket_sketches, estimate_delta, BucketDecodeBatch, BucketDecodeSuccess, BucketRequest,
    MAX_BUCKETED_SKETCH_CAPACITY,
};

verus! {

/// Bit width of the `h64` trie used to materialize bucket ranges.
///
/// This is not the protocol request-depth cap; request validation enforces
/// a depth of at most 32.
pub const H64_TRIE_WIDTH: u8 = 64;

} // verus!
