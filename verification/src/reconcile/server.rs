//! Responder-side reconciliation: digests, bucket ranges and bucket sketches.

use vstd::prelude::*;
use vstd::arithmetic::div_mod::{
    lemma_div_is_ordered, lemma_fundamental_div_mod, lemma_fundamental_div_mod_converse,
    lemma_mod_bound,
};
use vstd::arithmetic::power2::{
    lemma2_to64, lemma2_to64_rest, lemma_pow2_adds, lemma_pow2_pos, lemma_pow2_strictly_increases,
    lemma_pow2_unfold, pow2,
};
use vstd::bits::{lemma_u64_shl_is_mul, lemma_u64_shr_is_div};
use super::algebraic::{
    toggle_extends, valid_capacity, AlgebraicError, RoomAccumulator, SyndromeSketch,
};
use super::pinsketch::{ascending, sketch_of};
use super::triage::{
    first_problem, request_problem, valid_requests, validate_bucket_requests, BucketRequest,
};
use super::H64_TRIE_WIDTH;
pub use super::frame::{compute_frame_digest, matrix_event_hash, EventId, ForwardGraph};
use super::frame::{finite_graph, frame_outcome, texts_of};

verus! {

/// Read-only helper over a pre-sorted `h64` index.
///
/// This keeps bucket extraction cheap and explicit without forcing callers into
/// a heavier storage abstraction.
#[derive(Debug, Clone, Copy)]
pub struct H64Index<'a> {
    pub sorted_h64: &'a [u64],
}

/// The number of identifiers in a bucket's key range.
pub open spec fn bucket_width(depth: u8) -> nat {
    pow2((64 - depth) as nat)
}

/// The first identifier of a bucket's key range. Bits of the prefix beyond the
/// depth do not count.
pub open spec fn bucket_low(depth: u8, prefix: u32) -> nat {
    (prefix as nat % pow2(depth as nat)) * bucket_width(depth)
}

/// The identifier lies in the bucket: its leading bits are the prefix.
pub open spec fn in_bucket(x: u64, depth: u8, prefix: u32) -> bool {
    x as nat / bucket_width(depth) == prefix as nat % pow2(depth as nat)
}

/// The index splits into identifiers below the bound and the rest.
pub open spec fn splits_at(sorted: Seq<u64>, position: int, bound: nat) -> bool {
    &&& 0 <= position <= sorted.len()
    &&& forall|i: int| 0 <= i < position ==> (#[trigger] sorted[i] as nat) < bound
    &&& forall|i: int| position <= i < sorted.len() ==> #[trigger] sorted[i] as nat >= bound
}

/// The half-open position range of a bucket in the index.
pub open spec fn bucket_positions(
    sorted: Seq<u64>,
    depth: u8,
    prefix: u32,
    start: int,
    end: int,
) -> bool {
    &&& start <= end
    &&& splits_at(sorted, start, bucket_low(depth, prefix))
    &&& splits_at(sorted, end, bucket_low(depth, prefix) + bucket_width(depth))
}

/// The positions of a bucket hold exactly the identifiers that lie in it.
pub proof fn positions_hold_bucket(
    sorted: Seq<u64>,
    depth: u8,
    prefix: u32,
    start: int,
    end: int,
    i: int,
)
    requires
        depth <= 64,
        bucket_positions(sorted, depth, prefix, start, end),
        0 <= i < sorted.len(),
    ensures
        start <= i < end <==> in_bucket(sorted[i], depth, prefix),
{
    let w = bucket_width(depth);
    let x = sorted[i] as nat;
    let p = prefix as nat % pow2(depth as nat);
    lemma_pow2_pos((64 - depth) as nat);
    lemma_fundamental_div_mod(x as int, w as int);
    lemma_mod_bound(x as int, w as int);
    let q = x / w;
    let r = x % w;
    assert(w * q == q * w) by (nonlinear_arith);
    if start <= i < end {
        assert(p * w <= x < p * w + w);
        assert(q == p) by (nonlinear_arith)
            requires
                p * w <= x < p * w + w,
                x == q * w + r,
                0 <= r < w,
        ;
    }
    if q == p {
        assert(p * w <= x < p * w + w);
    }
}

/// The number of identifiers below a bound.
fn count_below(sorted: &[u64], bound: u128) -> (position: usize)
    requires
        ascending(sorted@),
    ensures
        splits_at(sorted@, position as int, bound as nat),
{
    let mut low: usize = 0;
    let mut high: usize = sorted.len();
    while low < high
        invariant
            ascending(sorted@),
            low <= high <= sorted.len(),
            forall|i: int| 0 <= i < low ==> (#[trigger] sorted@[i] as nat) < bound as nat,
            forall|i: int| high <= i < sorted.len() ==> #[trigger] sorted@[i] as nat >= bound as nat,
        decreases high - low,
    {
        let middle: usize = low + (high - low) / 2;
        if (sorted[middle] as u128) < bound {
            low = middle + 1;
        } else {
            high = middle;
        }
    }
    low
}

/// The bounds of a bucket's key range.
fn bucket_bounds(depth: u8, prefix: u32) -> (bounds: (u128, u128))
    requires
        1 <= depth <= 64,
    ensures
        bounds.0 == bucket_low(depth, prefix),
        bounds.1 == bucket_low(depth, prefix) + bucket_width(depth),
{
    let shift: u64 = (64 - depth) as u64;
    proof {
        lemma2_to64();
        lemma2_to64_rest();
        lemma_pow2_pos(shift as nat);
        lemma_pow2_pos(depth as nat);
        lemma_pow2_strictly_increases(shift as nat, 64);
        lemma_u64_shl_is_mul(1, shift);
        lemma_pow2_adds(depth as nat, shift as nat);
        if depth < 32 {
            lemma_pow2_strictly_increases(depth as nat, 32);
            lemma_u64_shl_is_mul(1, depth as u64);
        } else {
            if depth > 32 {
                lemma_pow2_strictly_increases(32, depth as nat);
            }
            vstd::arithmetic::div_mod::lemma_small_mod(prefix as nat, pow2(depth as nat));
        }
        lemma_mod_bound(prefix as int, pow2(depth as nat) as int);
    }
    let width: u64 = 1u64 << shift;
    let top: u64 = if depth < 32 {
        prefix as u64 % (1u64 << (depth as u64))
    } else {
        prefix as u64
    };
    proof {
        let d = pow2(depth as nat);
        assert(top as nat * width as nat + width as nat <= d * width as nat) by (nonlinear_arith)
            requires
                top as nat + 1 <= d,
                width >= 1,
        ;
        assert(top as nat * width as nat >= 0) by (nonlinear_arith)
            requires
                top >= 0,
                width >= 1,
        ;
    }
    let low: u128 = top as u128 * width as u128;
    (low, low + width as u128)
}

impl<'a> H64Index<'a> {
    /// Creates a view over a pre-sorted `h64` slice.
    #[must_use]
    pub fn new(sorted_h64: &'a [u64]) -> (index: Self)
        ensures
            index.sorted_h64 == sorted_h64,
    {
        H64Index { sorted_h64 }
    }

    /// The positions of a bucket, whatever its capacity.
    fn bucket_range_unchecked(&self, request: &BucketRequest) -> (range: std::ops::Range<usize>)
        requires
            ascending(self.sorted_h64@),
            request.depth <= 64,
        ensures
            bucket_positions(
                self.sorted_h64@,
                request.depth,
                request.prefix,
                range.start as int,
                range.end as int,
            ),
            range.end <= self.sorted_h64@.len(),
    {
        if request.depth == 0 {
            proof {
                lemma2_to64();
                lemma2_to64_rest();
                assert(request.prefix as nat % 1 == 0);
                assert(0 * pow2(64) == 0);
            }
            return 0..self.sorted_h64.len();
        }
        let (low, high) = bucket_bounds(request.depth, request.prefix);
        let start: usize = count_below(self.sorted_h64, low);
        let end: usize = count_below(self.sorted_h64, high);
        proof {
            lemma_pow2_pos((64 - request.depth) as nat);
            if end < start {
                assert(self.sorted_h64@[end as int] as nat >= high);
                assert((self.sorted_h64@[end as int] as nat) < low);
            }
        }
        start..end
    }

    /// Returns the half-open slice range covered by one bucket request.
    ///
    /// # Errors
    /// Returns an error when the request is malformed.
    pub fn bucket_range(&self, request: &BucketRequest) -> (result: Result<
        std::ops::Range<usize>,
        AlgebraicError,
    >)
        requires
            ascending(self.sorted_h64@),
        ensures
            match result {
                Ok(range) => valid_requests(seq![*request]) && bucket_positions(
                    self.sorted_h64@,
                    request.depth,
                    request.prefix,
                    range.start as int,
                    range.end as int,
                ),
                Err(error) => request_problem(seq![*request], 0) == Some(error),
            },
    {
        match check_request(request) {
            Ok(_) => Ok(self.bucket_range_unchecked(request)),
            Err(error) => Err(error),
        }
    }

    /// Returns the `h64` slice covered by one bucket request.
    ///
    /// # Errors
    /// Returns an error when the request is malformed.
    pub fn bucket_slice(&self, request: &BucketRequest) -> (result: Result<
        &'a [u64],
        AlgebraicError,
    >)
        requires
            ascending(self.sorted_h64@),
        ensures
            match result {
                Ok(slice) => valid_requests(seq![*request]) && is_bucket(
                    self.sorted_h64@,
                    request.depth,
                    request.prefix,
                    slice@,
                ),
                Err(error) => request_problem(seq![*request], 0) == Some(error),
            },
    {
        match check_request(request) {
            Ok(_) => Ok(self.bucket_slice_unchecked(request)),
            Err(error) => Err(error),
        }
    }

    fn bucket_slice_unchecked(&self, request: &BucketRequest) -> (slice: &'a [u64])
        requires
            ascending(self.sorted_h64@),
            request.depth <= 64,
        ensures
            is_bucket(self.sorted_h64@, request.depth, request.prefix, slice@),
    {
        let range: std::ops::Range<usize> = self.bucket_range_unchecked(request);
        vstd::slice::slice_subrange(self.sorted_h64, range.start, range.end)
    }
}

/// The part of the index that a bucket covers.
pub open spec fn is_bucket(sorted: Seq<u64>, depth: u8, prefix: u32, slice: Seq<u64>) -> bool {
    exists|start: int, end: int| #[trigger]
        bucket_positions(sorted, depth, prefix, start, end) && slice == sorted.subrange(start, end)
}

proof fn bucket_unique(sorted: Seq<u64>, depth: u8, prefix: u32, a: Seq<u64>, b: Seq<u64>)
    requires
        is_bucket(sorted, depth, prefix, a),
        is_bucket(sorted, depth, prefix, b),
    ensures
        a == b,
{
    let low = bucket_low(depth, prefix);
    let high = low + bucket_width(depth);
    let (i, j) = choose|start: int, end: int| #[trigger]
        bucket_positions(sorted, depth, prefix, start, end) && a == sorted.subrange(start, end);
    let (k, l) = choose|start: int, end: int| #[trigger]
        bucket_positions(sorted, depth, prefix, start, end) && b == sorted.subrange(start, end);
    position_unique(sorted, i, k, low);
    position_unique(sorted, j, l, high);
}

/// Validates one request.
fn check_request(request: &BucketRequest) -> (result: Result<(), AlgebraicError>)
    ensures
        match result {
            Ok(_) => valid_requests(seq![*request]) && request.depth <= 32,
            Err(error) => request_problem(seq![*request], 0) == Some(error),
        },
{
    let single: [BucketRequest; 1] = [*request];
    proof {
        assert(single@ =~= seq![*request]);
    }
    let result: Result<(), AlgebraicError> = validate_bucket_requests(single.as_slice());
    proof {
        assert(seq![*request][0] == *request);
        if result is Ok {
            assert(request_problem(seq![*request], 0) is None);
        }
    }
    result
}

/// Constructs the sketch of a slice of identifiers.
fn sketch_slice(capacity: usize, slice: &[u64]) -> (result: Result<SyndromeSketch, AlgebraicError>)
    ensures
        match result {
            Ok(sketch) => {
                &&& valid_capacity(capacity)
                &&& !slice@.contains(0)
                &&& sketch.coordinates@.len() == capacity
                &&& sketch_of(slice@, sketch.coordinates@)
            },
            Err(error) => if valid_capacity(capacity) {
                error == AlgebraicError::ZeroShortIdentifier && slice@.contains(0)
            } else {
                error == AlgebraicError::InvalidSketchCapacity
            },
        },
{
    let mut sketch: SyndromeSketch = match SyndromeSketch::new(capacity) {
        Ok(sketch) => sketch,
        Err(error) => return Err(error),
    };
    let mut index: usize = 0;
    proof {
        assert(slice@.take(0) =~= Seq::<u64>::empty());
    }
    while index < slice.len()
        invariant
            index <= slice.len(),
            valid_capacity(capacity),
            sketch.coordinates@.len() == capacity,
            forall|i: int| 0 <= i < index ==> slice@[i] != 0,
            sketch_of(slice@.take(index as int), sketch.coordinates@),
        decreases slice.len() - index,
    {
        let ghost before = sketch.coordinates@;
        match sketch.toggle(slice[index]) {
            Ok(_) => {},
            Err(error) => {
                proof {
                    assert(slice@[index as int] == 0);
                }
                return Err(error);
            },
        }
        proof {
            toggle_extends(slice@.take(index as int), before, slice@[index as int]);
            assert(slice@.take(index + 1) =~= slice@.take(index as int).push(slice@[index as int]));
        }
        index = index + 1;
    }
    proof {
        assert(slice@.take(index as int) =~= slice@);
    }
    Ok(sketch)
}

/// The sketch of a requested bucket.
pub open spec fn is_bucket_sketch(
    sorted: Seq<u64>,
    request: BucketRequest,
    sketch: SyndromeSketch,
) -> bool {
    sketch.coordinates@.len() == request.capacity && exists|slice: Seq<u64>| #[trigger]
        is_bucket(sorted, request.depth, request.prefix, slice) && sketch_of(
            slice,
            sketch.coordinates@,
        )
}

/// A zero identifier lies in one of the requested buckets.
pub open spec fn zero_requested(sorted: Seq<u64>, requests: Seq<BucketRequest>) -> bool {
    exists|k: int, slice: Seq<u64>|
        0 <= k < requests.len() && #[trigger] is_bucket(
            sorted,
            requests[k].depth,
            requests[k].prefix,
            slice,
        ) && slice.contains(0)
}

/// Constructs bucket sketches for the provided triage requests.
///
/// This binary-searches a pre-sorted array of 64-bit identifiers, extracting
/// and toggling only the slice of events requested in each bucket.
///
/// # Errors
/// Returns an error if any sketches exceed capacity limits or if requests are invalid.
pub fn build_bucket_sketches(sorted_h64: &[u64], requests: &[BucketRequest]) -> (result: Result<
    Vec<SyndromeSketch>,
    AlgebraicError,
>)
    requires
        ascending(sorted_h64@),
    ensures
        match result {
            Ok(sketches) => {
                &&& valid_requests(requests@)
                &&& !zero_requested(sorted_h64@, requests@)
                &&& sketches@.len() == requests@.len()
                &&& forall|i: int|
                    0 <= i < sketches@.len() ==> is_bucket_sketch(
                        sorted_h64@,
                        requests@[i],
                        #[trigger] sketches@[i],
                    )
            },
            Err(error) => if valid_requests(requests@) {
                error == AlgebraicError::ZeroShortIdentifier && zero_requested(
                    sorted_h64@,
                    requests@,
                )
            } else {
                first_problem(requests@, error)
            },
        },
{
    match validate_bucket_requests(requests) {
        Ok(_) => {},
        Err(error) => {
            proof {
                super::triage::valid_or_problem(requests@, error);
            }
            return Err(error);
        },
    }
    let index: H64Index = H64Index::new(sorted_h64);
    let mut sketches: Vec<SyndromeSketch> = Vec::new();
    let mut place: usize = 0;
    while place < requests.len()
        invariant
            place <= requests.len(),
            valid_requests(requests@),
            ascending(sorted_h64@),
            index.sorted_h64 == sorted_h64,
            sketches@.len() == place,
            forall|i: int|
                0 <= i < place ==> is_bucket_sketch(
                    sorted_h64@,
                    requests@[i],
                    #[trigger] sketches@[i],
                ),
            forall|i: int, slice: Seq<u64>|
                0 <= i < place && #[trigger] is_bucket(
                    sorted_h64@,
                    requests@[i].depth,
                    requests@[i].prefix,
                    slice,
                ) ==> !slice.contains(0),
        decreases requests.len() - place,
    {
        let request: BucketRequest = requests[place];
        proof {
            assert(request_problem(requests@, place as int) is None);
        }
        let slice: &[u64] = index.bucket_slice_unchecked(&request);
        proof {
            assert(is_bucket(
                sorted_h64@,
                requests@[place as int].depth,
                requests@[place as int].prefix,
                slice@,
            ));
        }
        let sketch: SyndromeSketch = match sketch_slice(request.capacity, slice) {
            Ok(sketch) => sketch,
            Err(error) => return Err(error),
        };
        sketches.push(sketch);
        proof {
            assert forall|i: int, other: Seq<u64>|
                0 <= i < place + 1 && #[trigger] is_bucket(
                    sorted_h64@,
                    requests@[i].depth,
                    requests@[i].prefix,
                    other,
                ) implies !other.contains(0) by {
                if i == place {
                    bucket_unique(sorted_h64@, request.depth, request.prefix, slice@, other);
                }
            }
        }
        place = place + 1;
    }
    Ok(sketches)
}

/// Reusable reconciliation view over one room's current frame and `h64` index.
///
/// This is a convenience layer for callers that repeatedly query the same room
/// state: it avoids threading the graph, anchors, and sorted index separately
/// through every call site.
#[derive(Debug, Clone, Copy)]
pub struct ReconciliationContext<'a, Id: EventId, G: ForwardGraph<Id>> {
    pub graph: &'a G,
    pub frame_anchors: &'a [Id],
    pub h64_index: H64Index<'a>,
}

impl<'a, Id: EventId, G: ForwardGraph<Id>> ReconciliationContext<'a, Id, G> {
    /// Creates a reusable context for one room/frame snapshot.
    #[must_use]
    pub fn new(graph: &'a G, frame_anchors: &'a [Id], sorted_h64: &'a [u64]) -> (context: Self)
        ensures
            context.graph == graph,
            context.frame_anchors == frame_anchors,
            context.h64_index.sorted_h64 == sorted_h64,
    {
        ReconciliationContext { graph, frame_anchors, h64_index: H64Index::new(sorted_h64) }
    }

    /// Returns the negotiated frame digest for this room snapshot.
    ///
    /// # Errors
    /// Returns an error if any frame event IDs violate format rules or element
    /// hashing limits.
    pub fn frame_digest(&self) -> (result: Result<RoomAccumulator, AlgebraicError>)
        requires
            finite_graph::<Id, G>(self.graph),
        ensures
            frame_outcome::<Id, G>(self.graph, texts_of(self.frame_anchors@), result),
    {
        compute_frame_digest(self.graph, self.frame_anchors)
    }

    /// Returns the `h64` range covered by one bucket request.
    ///
    /// # Errors
    /// Returns an error when the request is malformed.
    pub fn bucket_range(&self, request: &BucketRequest) -> (result: Result<
        std::ops::Range<usize>,
        AlgebraicError,
    >)
        requires
            ascending(self.h64_index.sorted_h64@),
        ensures
            match result {
                Ok(range) => valid_requests(seq![*request]) && bucket_positions(
                    self.h64_index.sorted_h64@,
                    request.depth,
                    request.prefix,
                    range.start as int,
                    range.end as int,
                ),
                Err(error) => request_problem(seq![*request], 0) == Some(error),
            },
    {
        self.h64_index.bucket_range(request)
    }

    /// Returns the `h64` slice covered by one bucket request.
    ///
    /// # Errors
    /// Returns an error when the request is malformed.
    pub fn bucket_slice(&self, request: &BucketRequest) -> (result: Result<
        &'a [u64],
        AlgebraicError,
    >)
        requires
            ascending(self.h64_index.sorted_h64@),
        ensures
            match result {
                Ok(slice) => valid_requests(seq![*request]) && is_bucket(
                    self.h64_index.sorted_h64@,
                    request.depth,
                    request.prefix,
                    slice@,
                ),
                Err(error) => request_problem(seq![*request], 0) == Some(error),
            },
    {
        self.h64_index.bucket_slice(request)
    }

    /// Constructs bucket sketches over the room's sorted `h64` index.
    ///
    /// # Errors
    /// Returns an error if any sketches exceed capacity limits or if requests are invalid.
    pub fn bucket_sketches(&self, requests: &[BucketRequest]) -> (result: Result<
        Vec<SyndromeSketch>,
        AlgebraicError,
    >)
        requires
            ascending(self.h64_index.sorted_h64@),
        ensures
            match result {
                Ok(sketches) => {
                    &&& valid_requests(requests@)
                    &&& !zero_requested(self.h64_index.sorted_h64@, requests@)
                    &&& sketches@.len() == requests@.len()
                    &&& forall|i: int|
                        0 <= i < sketches@.len() ==> is_bucket_sketch(
                            self.h64_index.sorted_h64@,
                            requests@[i],
                            #[trigger] sketches@[i],
                        )
                },
                Err(error) => if valid_requests(requests@) {
                    error == AlgebraicError::ZeroShortIdentifier && zero_requested(
                        self.h64_index.sorted_h64@,
                        requests@,
                    )
                } else {
                    first_problem(requests@, error)
                },
            },
    {
        build_bucket_sketches(self.h64_index.sorted_h64, requests)
    }
}

/// Limits for building sketches of requested buckets.
pub struct SketchPolicy {
    /// Maximum total elements to process across all returned sketches.
    pub max_aggregate_work: usize,
    /// The absolute ceiling where a single slice proves the difference is pathological.
    pub hard_fallback_threshold: usize,
}

/// What building sketches comes to.
pub enum SketchResult {
    Success(Vec<SyndromeSketch>),
    FallbackToRangeSync,
}

/// A builder that iteratively evaluates capacity limits before paying the cost to build sketches.
pub struct SketchBuilder<'a> {
    pub index: &'a H64Index<'a>,
    pub policy: SketchPolicy,
}

/// The bit that decides between the two halves of a bucket is clear.
pub open spec fn left_half(x: u64, depth: u8) -> bool {
    (x as nat / pow2((63 - depth) as nat)) % 2 == 0
}

/// Identifiers of the left half come before those of the right.
pub open spec fn halves_in_order(entries: Seq<u64>, depth: u8) -> bool {
    forall|i: int, j: int|
        0 <= i < j < entries.len() && left_half(#[trigger] entries[j], depth) ==> left_half(
            #[trigger] entries[i],
            depth,
        )
}

/// The position where the right half starts.
pub open spec fn half_position(entries: Seq<u64>, depth: u8, mid: int) -> bool {
    &&& 0 <= mid <= entries.len()
    &&& forall|i: int| 0 <= i < mid ==> left_half(#[trigger] entries[i], depth)
    &&& forall|i: int| mid <= i < entries.len() ==> !left_half(#[trigger] entries[i], depth)
}

/// The leading `depth` bits of the identifiers in a range are the same.
spec fn aligned(sorted: Seq<u64>, start: int, end: int, depth: u8) -> bool {
    forall|i: int, j: int|
        #![trigger sorted[i], sorted[j]]
        start <= i < end && start <= j < end ==> sorted[i] as nat / bucket_width(depth)
            == sorted[j] as nat / bucket_width(depth)
}

proof fn quotient_halves(x: nat, depth: u8)
    requires
        depth < 64,
    ensures
        x / bucket_width((depth + 1) as u8) == 2 * (x / bucket_width(depth)) + (x / pow2(
            (63 - depth) as nat,
        )) % 2,
{
    let h = pow2((63 - depth) as nat);
    lemma_pow2_pos((63 - depth) as nat);
    lemma_pow2_unfold((64 - depth) as nat);
    assert(bucket_width(depth) == 2 * h);
    assert(bucket_width((depth + 1) as u8) == h);
    vstd::arithmetic::div_mod::lemma_div_denominator(x as int, h as int, 2);
    assert(h * 2 == 2 * h);
    lemma_fundamental_div_mod((x / h) as int, 2);
}

proof fn aligned_halves(sorted: Seq<u64>, start: int, end: int, depth: u8)
    requires
        ascending(sorted),
        aligned(sorted, start, end, depth),
        0 <= start <= end <= sorted.len(),
        depth < 64,
    ensures
        halves_in_order(sorted.subrange(start, end), depth),
{
    let entries = sorted.subrange(start, end);
    assert forall|i: int, j: int|
        0 <= i < j < entries.len() && left_half(#[trigger] entries[j], depth) implies left_half(
        #[trigger] entries[i],
        depth,
    ) by {
        let x = sorted[start + i] as nat;
        let y = sorted[start + j] as nat;
        quotient_halves(x, depth);
        quotient_halves(y, depth);
        assert(sorted[start + i] <= sorted[start + j]);
        let w = bucket_width((depth + 1) as u8);
        lemma_pow2_pos((63 - depth) as nat);
        lemma_div_is_ordered(x as int, y as int, w as int);
    }
}

proof fn aligned_children(sorted: Seq<u64>, start: int, end: int, depth: u8, mid: int)
    requires
        aligned(sorted, start, end, depth),
        0 <= start <= end <= sorted.len(),
        depth < 64,
        half_position(sorted.subrange(start, end), depth, mid),
    ensures
        aligned(sorted, start, start + mid, (depth + 1) as u8),
        aligned(sorted, start + mid, end, (depth + 1) as u8),
{
    let entries = sorted.subrange(start, end);
    assert forall|i: int, j: int|
        #![trigger sorted[i], sorted[j]]
        start <= i < start + mid && start <= j < start + mid implies sorted[i] as nat
        / bucket_width((depth + 1) as u8) == sorted[j] as nat / bucket_width(
        (depth + 1) as u8,
    ) by {
        quotient_halves(sorted[i] as nat, depth);
        quotient_halves(sorted[j] as nat, depth);
        assert(left_half(entries[i - start], depth) && left_half(entries[j - start], depth));
    }
    assert forall|i: int, j: int|
        #![trigger sorted[i], sorted[j]]
        start + mid <= i < end && start + mid <= j < end implies sorted[i] as nat / bucket_width(
        (depth + 1) as u8,
    ) == sorted[j] as nat / bucket_width((depth + 1) as u8) by {
        quotient_halves(sorted[i] as nat, depth);
        quotient_halves(sorted[j] as nat, depth);
        assert(!left_half(entries[i - start], depth) && !left_half(entries[j - start], depth));
    }
}

/// The start of the right half of a range.
pub open spec fn half_of(sorted: Seq<u64>, start: int, end: int, depth: u8) -> int {
    start + choose|mid: int| half_position(sorted.subrange(start, end), depth, mid)
}

proof fn half_unique(entries: Seq<u64>, depth: u8, a: int, b: int)
    requires
        half_position(entries, depth, a),
        half_position(entries, depth, b),
    ensures
        a == b,
{
    if a < b {
        assert(left_half(entries[a], depth));
    } else if b < a {
        assert(left_half(entries[b], depth));
    }
}

/// The ranges that an oversized range is split into, from left to right: each
/// within capacity or at full depth.
pub open spec fn leaf_ranges(
    sorted: Seq<u64>,
    start: int,
    end: int,
    depth: u8,
    capacity: usize,
) -> Seq<(int, int, usize)>
    decreases 64 - depth,
{
    if end - start > capacity && depth < 64 {
        let mid = half_of(sorted, start, end, depth);
        leaf_ranges(sorted, start, mid, (depth + 1) as u8, capacity) + leaf_ranges(
            sorted,
            mid,
            end,
            (depth + 1) as u8,
            capacity,
        )
    } else {
        seq![(start, end, capacity)]
    }
}

/// The position in the index where identifiers reach a bound.
pub open spec fn position_of(sorted: Seq<u64>, bound: nat) -> int {
    choose|position: int| splits_at(sorted, position, bound)
}

proof fn position_unique(sorted: Seq<u64>, a: int, b: int, bound: nat)
    requires
        splits_at(sorted, a, bound),
        splits_at(sorted, b, bound),
    ensures
        a == b,
{
    if a < b {
        assert(sorted[a] as nat >= bound);
    } else if b < a {
        assert(sorted[b] as nat >= bound);
    }
}

/// The position range of a request's bucket.
pub open spec fn request_range(sorted: Seq<u64>, request: BucketRequest) -> (int, int) {
    let low = bucket_low(request.depth, request.prefix);
    (position_of(sorted, low), position_of(sorted, low + bucket_width(request.depth)))
}

/// The leaf ranges of the first `n` requests, the last request first.
pub open spec fn build_leaves(
    sorted: Seq<u64>,
    requests: Seq<BucketRequest>,
    n: nat,
) -> Seq<(int, int, usize)>
    decreases n,
{
    if n == 0 {
        Seq::empty()
    } else {
        let request = requests[n - 1];
        let range = request_range(sorted, request);
        leaf_ranges(sorted, range.0, range.1, request.depth, request.capacity) + build_leaves(
            sorted,
            requests,
            (n - 1) as nat,
        )
    }
}

/// The number of identifiers in all ranges.
pub open spec fn leaf_work(leaves: Seq<(int, int, usize)>) -> int
    decreases leaves.len(),
{
    if leaves.len() == 0 {
        0
    } else {
        leaf_work(leaves.drop_last()) + (leaves.last().1 - leaves.last().0)
    }
}

/// The work exceeds the allowance.
pub open spec fn over_budget(work: int, allowance: usize) -> bool {
    allowance < usize::MAX && work > allowance
}

/// What ends a build before its sketches are complete.
pub enum BuildStop {
    /// A limit of the policy was passed.
    Limit,
    /// A sketch could not be made.
    Fault(AlgebraicError),
}

/// What ends a build at a leaf range, given the work that was done before it.
pub open spec fn leaf_stop(
    sorted: Seq<u64>,
    leaf: (int, int, usize),
    work: int,
    allowance: usize,
) -> Option<BuildStop> {
    if over_budget(work + (leaf.1 - leaf.0), allowance) {
        Some(BuildStop::Limit)
    } else if !valid_capacity(leaf.2) {
        Some(BuildStop::Fault(AlgebraicError::InvalidSketchCapacity))
    } else if sorted.subrange(leaf.0, leaf.1).contains(0) {
        Some(BuildStop::Fault(AlgebraicError::ZeroShortIdentifier))
    } else {
        None
    }
}

/// What ends a build at the first of the leaf ranges that ends it.
pub open spec fn leaves_stop(
    sorted: Seq<u64>,
    leaves: Seq<(int, int, usize)>,
    work: int,
    allowance: usize,
) -> Option<BuildStop>
    decreases leaves.len(),
{
    if leaves.len() == 0 {
        None
    } else {
        match leaf_stop(sorted, leaves.first(), work, allowance) {
            Some(stop) => Some(stop),
            None => leaves_stop(
                sorted,
                leaves.drop_first(),
                work + (leaves.first().1 - leaves.first().0),
                allowance,
            ),
        }
    }
}

/// What ends a build of one range: that it is too large, or one of its leaves.
pub open spec fn range_stop(
    sorted: Seq<u64>,
    range: (int, int),
    depth: u8,
    capacity: usize,
    work: int,
    policy: SketchPolicy,
) -> Option<BuildStop> {
    if range.1 - range.0 > policy.hard_fallback_threshold {
        Some(BuildStop::Limit)
    } else {
        leaves_stop(
            sorted,
            leaf_ranges(sorted, range.0, range.1, depth, capacity),
            work,
            policy.max_aggregate_work,
        )
    }
}

/// What ends a build of the first `n` requests, which are taken from the last
/// to the first.
pub open spec fn build_stop(
    sorted: Seq<u64>,
    requests: Seq<BucketRequest>,
    n: nat,
    work: int,
    policy: SketchPolicy,
) -> Option<BuildStop>
    decreases n,
{
    if n == 0 {
        None
    } else {
        let request = requests[n - 1];
        let range = request_range(sorted, request);
        match range_stop(sorted, range, request.depth, request.capacity, work, policy) {
            Some(stop) => Some(stop),
            None => build_stop(
                sorted,
                requests,
                (n - 1) as nat,
                work + (range.1 - range.0),
                policy,
            ),
        }
    }
}

/// One of the requests is too deep to be routed.
pub open spec fn too_deep(requests: Seq<BucketRequest>) -> bool {
    exists|k: int| 0 <= k < requests.len() && (#[trigger] requests[k]).depth > 64
}

/// What a build comes to: an error for a request that is too deep, what ends it early,
/// or the sketches of all leaf ranges.
pub open spec fn built(
    sorted: Seq<u64>,
    requests: Seq<BucketRequest>,
    policy: SketchPolicy,
    result: Result<SketchResult, AlgebraicError>,
) -> bool {
    let leaves = build_leaves(sorted, requests, requests.len());
    if too_deep(requests) {
        result matches Err(error) && error == AlgebraicError::InvalidBucketIndex
    } else {
        match build_stop(sorted, requests, requests.len(), 0, policy) {
            Some(BuildStop::Limit) => result == Ok::<SketchResult, AlgebraicError>(
                SketchResult::FallbackToRangeSync,
            ),
            Some(BuildStop::Fault(error)) => result == Err::<SketchResult, AlgebraicError>(error),
            None => {
                &&& result matches Ok(SketchResult::Success(sketches))
                &&& sketches@.len() == leaves.len()
                &&& forall|i: int|
                    0 <= i < leaves.len() ==> is_leaf_sketch(
                        sorted,
                        leaves[i],
                        #[trigger] sketches@[i],
                    )
            },
        }
    }
}

/// The sketch of one leaf range.
pub open spec fn is_leaf_sketch(
    sorted: Seq<u64>,
    leaf: (int, int, usize),
    sketch: SyndromeSketch,
) -> bool {
    sketch.coordinates@.len() == leaf.2 && sketch_of(
        sorted.subrange(leaf.0, leaf.1),
        sketch.coordinates@,
    )
}

/// A pending range on the builder's stack.
struct PendingRange {
    depth: u8,
    capacity: usize,
    start: usize,
    end: usize,
}

spec fn range_leaves(sorted: Seq<u64>, range: PendingRange) -> Seq<(int, int, usize)> {
    leaf_ranges(sorted, range.start as int, range.end as int, range.depth, range.capacity)
}

spec fn stack_leaves(sorted: Seq<u64>, stack: Seq<PendingRange>) -> Seq<(int, int, usize)>
    decreases stack.len(),
{
    if stack.len() == 0 {
        Seq::empty()
    } else {
        range_leaves(sorted, stack.last()) + stack_leaves(sorted, stack.drop_last())
    }
}

/// What ends a build of the pending ranges, the last one first.
spec fn stack_stop(
    sorted: Seq<u64>,
    stack: Seq<PendingRange>,
    work: int,
    policy: SketchPolicy,
) -> Option<BuildStop>
    decreases stack.len(),
{
    if stack.len() == 0 {
        None
    } else {
        let last = stack.last();
        let range = (last.start as int, last.end as int);
        match range_stop(sorted, range, last.depth, last.capacity, work, policy) {
            Some(stop) => Some(stop),
            None => stack_stop(sorted, stack.drop_last(), work + (range.1 - range.0), policy),
        }
    }
}

/// Bounds the ranges that a range at a depth can still be split into.
spec fn range_weight(depth: u8) -> nat {
    (pow2((65 - depth) as nat) - 1) as nat
}

spec fn stack_weight(stack: Seq<PendingRange>) -> nat
    decreases stack.len(),
{
    if stack.len() == 0 {
        0
    } else {
        stack_weight(stack.drop_last()) + range_weight(stack.last().depth)
    }
}

spec fn range_ok(sorted: Seq<u64>, range: PendingRange) -> bool {
    &&& range.depth <= 64
    &&& range.start <= range.end <= sorted.len()
    &&& aligned(sorted, range.start as int, range.end as int, range.depth)
}

/// The pending range of an unprocessed request.
spec fn is_root(sorted: Seq<u64>, request: BucketRequest, range: PendingRange) -> bool {
    &&& range.depth == request.depth
    &&& range.capacity == request.capacity
    &&& (range.start as int, range.end as int) == request_range(sorted, request)
}

proof fn leaf_work_concat(a: Seq<(int, int, usize)>, b: Seq<(int, int, usize)>)
    ensures
        leaf_work(a + b) == leaf_work(a) + leaf_work(b),
    decreases b.len(),
{
    if b.len() == 0 {
        assert(a + b =~= a);
    } else {
        leaf_work_concat(a, b.drop_last());
        assert((a + b).drop_last() =~= a + b.drop_last());
    }
}

proof fn leaves_stop_concat(
    sorted: Seq<u64>,
    a: Seq<(int, int, usize)>,
    b: Seq<(int, int, usize)>,
    work: int,
    allowance: usize,
)
    ensures
        leaves_stop(sorted, a + b, work, allowance) == match leaves_stop(
            sorted,
            a,
            work,
            allowance,
        ) {
            Some(stop) => Some(stop),
            None => leaves_stop(sorted, b, work + leaf_work(a), allowance),
        },
    decreases a.len(),
{
    if a.len() == 0 {
        assert(a + b =~= b);
    } else {
        let head = seq![a.first()];
        assert((a + b).drop_first() =~= a.drop_first() + b);
        assert(head + a.drop_first() =~= a);
        leaf_work_concat(head, a.drop_first());
        assert(head.drop_last() =~= Seq::<(int, int, usize)>::empty());
        assert(leaf_work(head.drop_last()) == 0);
        leaves_stop_concat(
            sorted,
            a.drop_first(),
            b,
            work + (a.first().1 - a.first().0),
            allowance,
        );
    }
}

/// Splitting the last pending range changes nothing about what ends the build.
proof fn stop_after_split(
    sorted: Seq<u64>,
    rest: Seq<PendingRange>,
    range: PendingRange,
    upper: PendingRange,
    lower: PendingRange,
    work: int,
    policy: SketchPolicy,
)
    requires
        ascending(sorted),
        range_ok(sorted, upper),
        range_ok(sorted, lower),
        range_leaves(sorted, range) == range_leaves(sorted, lower) + range_leaves(sorted, upper),
        lower.start == range.start,
        lower.end == upper.start,
        upper.end == range.end,
        range.end - range.start <= policy.hard_fallback_threshold,
    ensures
        stack_stop(sorted, rest.push(upper).push(lower), work, policy) == stack_stop(
            sorted,
            rest.push(range),
            work,
            policy,
        ),
{
    assert(rest.push(upper).push(lower).drop_last() =~= rest.push(upper));
    assert(rest.push(upper).drop_last() =~= rest);
    assert(rest.push(range).drop_last() =~= rest);
    leaf_work_nonnegative(
        sorted,
        lower.start as int,
        lower.end as int,
        lower.depth,
        lower.capacity,
    );
    leaves_stop_concat(
        sorted,
        range_leaves(sorted, lower),
        range_leaves(sorted, upper),
        work,
        policy.max_aggregate_work,
    );
    let after = work + (lower.end - lower.start);
    assert(stack_stop(sorted, rest.push(upper), after, policy) == match range_stop(
        sorted,
        (upper.start as int, upper.end as int),
        upper.depth,
        upper.capacity,
        after,
        policy,
    ) {
        Some(stop) => Some(stop),
        None => stack_stop(sorted, rest, after + (upper.end - upper.start), policy),
    });
}

/// Unprocessed requests end a build as their pending ranges do.
proof fn roots_stop(
    sorted: Seq<u64>,
    requests: Seq<BucketRequest>,
    stack: Seq<PendingRange>,
    work: int,
    policy: SketchPolicy,
)
    requires
        stack.len() <= requests.len(),
        forall|i: int| 0 <= i < stack.len() ==> is_root(sorted, #[trigger] requests[i], stack[i]),
    ensures
        stack_stop(sorted, stack, work, policy) == build_stop(
            sorted,
            requests,
            stack.len(),
            work,
            policy,
        ),
    decreases stack.len(),
{
    if stack.len() > 0 {
        let n = stack.len() - 1;
        assert(is_root(sorted, requests[n], stack[n]));
        let range = request_range(sorted, requests[n]);
        roots_stop(sorted, requests, stack.drop_last(), work + (range.1 - range.0), policy);
    }
}

proof fn leaf_work_nonnegative(
    sorted: Seq<u64>,
    start: int,
    end: int,
    depth: u8,
    capacity: usize,
)
    requires
        0 <= start <= end <= sorted.len(),
        ascending(sorted),
        depth <= 64,
        aligned(sorted, start, end, depth),
    ensures
        leaf_work(leaf_ranges(sorted, start, end, depth, capacity)) == end - start,
    decreases 64 - depth,
{
    if end - start > capacity && depth < 64 {
        aligned_halves(sorted, start, end, depth);
        let entries = sorted.subrange(start, end);
        half_exists(entries, depth, entries.len());
        let mid = choose|mid: int| half_position(entries, depth, mid);
        aligned_children(sorted, start, end, depth, mid);
        leaf_work_nonnegative(sorted, start, start + mid, (depth + 1) as u8, capacity);
        leaf_work_nonnegative(sorted, start + mid, end, (depth + 1) as u8, capacity);
        leaf_work_concat(
            leaf_ranges(sorted, start, start + mid, (depth + 1) as u8, capacity),
            leaf_ranges(sorted, start + mid, end, (depth + 1) as u8, capacity),
        );
    } else {
        let leaves = leaf_ranges(sorted, start, end, depth, capacity);
        assert(leaves.drop_last() =~= Seq::<(int, int, usize)>::empty());
        assert(leaf_work(Seq::<(int, int, usize)>::empty()) == 0);
    }
}

proof fn half_exists(entries: Seq<u64>, depth: u8, n: nat)
    requires
        halves_in_order(entries, depth),
        n <= entries.len(),
        forall|i: int| n <= i < entries.len() ==> !left_half(#[trigger] entries[i], depth),
    ensures
        exists|mid: int| half_position(entries, depth, mid),
    decreases n,
{
    if n == 0 || left_half(entries[n - 1], depth) {
        assert(half_position(entries, depth, n as int));
    } else {
        half_exists(entries, depth, (n - 1) as nat);
    }
}

impl<'a> SketchBuilder<'a> {
    /// Creates a builder over an index with a policy.
    #[must_use]
    pub fn new(index: &'a H64Index<'a>, policy: SketchPolicy) -> (builder: Self)
        ensures
            builder.index == index,
            builder.policy == policy,
    {
        SketchBuilder { index, policy }
    }

    /// Takes an *existing* slice and bisects it without rescanning the full index.
    /// Returns the left and right sub-ranges relative to the slice provided.
    #[must_use]
    pub fn split_range(entries: &[u64], depth: u8) -> (result: Option<
        (std::ops::Range<usize>, std::ops::Range<usize>),
    >)
        requires
            depth < 64 ==> halves_in_order(entries@, depth),
        ensures
            match result {
                Some((left, right)) => {
                    &&& depth < 64
                    &&& left.start == 0
                    &&& left.end == right.start
                    &&& right.end == entries@.len()
                    &&& half_position(entries@, depth, left.end as int)
                },
                None => depth >= 64,
            },
    {
        if depth >= H64_TRIE_WIDTH {
            return None;
        }
        let shift: u64 = (63 - depth) as u64;
        let mut low: usize = 0;
        let mut high: usize = entries.len();
        while low < high
            invariant
                depth < 64,
                shift == 63 - depth,
                halves_in_order(entries@, depth),
                low <= high <= entries.len(),
                forall|i: int| 0 <= i < low ==> left_half(#[trigger] entries@[i], depth),
                forall|i: int|
                    high <= i < entries.len() ==> !left_half(#[trigger] entries@[i], depth),
            decreases high - low,
        {
            let middle: usize = low + (high - low) / 2;
            proof {
                lemma_u64_shr_is_div(entries@[middle as int], shift);
            }
            if (entries[middle] >> shift) % 2 == 0 {
                low = middle + 1;
            } else {
                high = middle;
            }
        }
        Some((0..low, low..entries.len()))
    }

    /// Processes incoming requests, iteratively splitting oversized buckets
    /// while enforcing total work budgets.
    ///
    /// # Errors
    /// Returns an error if sketch creation fails algebraically.
    pub fn build(&self, initial_requests: &[BucketRequest]) -> (result: Result<
        SketchResult,
        AlgebraicError,
    >)
        requires
            ascending(self.index.sorted_h64@),
        ensures
            built(self.index.sorted_h64@, initial_requests@, self.policy, result),
    {
        let ghost sorted = self.index.sorted_h64@;
        let ghost requests = initial_requests@;
        let ghost leaves = build_leaves(sorted, requests, requests.len());
        let mut stack: Vec<PendingRange> = Vec::new();
        let mut place: usize = 0;
        while place < initial_requests.len()
            invariant
                place <= initial_requests.len(),
                sorted == self.index.sorted_h64@,
                requests == initial_requests@,
                ascending(sorted),
                stack.len() == place,
                forall|i: int| 0 <= i < place ==> (#[trigger] requests[i]).depth <= 64,
                forall|i: int|
                    0 <= i < place ==> range_ok(sorted, #[trigger] stack@[i]) && is_root(
                        sorted,
                        requests[i],
                        stack@[i],
                    ),
                stack_leaves(sorted, stack@) == build_leaves(sorted, requests, place as nat),
            decreases initial_requests.len() - place,
        {
            let request: BucketRequest = initial_requests[place];
            if request.depth > H64_TRIE_WIDTH {
                proof {
                    assert(requests[place as int].depth > 64);
                }
                return Err(AlgebraicError::InvalidBucketIndex);
            }
            let range: std::ops::Range<usize> = self.index.bucket_range_unchecked(&request);
            let root: PendingRange = PendingRange {
                depth: request.depth,
                capacity: request.capacity,
                start: range.start,
                end: range.end,
            };
            let ghost before = stack@;
            stack.push(root);
            proof {
                root_is_aligned(sorted, request, range.start as int, range.end as int);
                assert(stack@.drop_last() =~= before);
                assert(stack@.last() == root);
            }
            place = place + 1;
        }
        let ghost goal = build_stop(sorted, requests, requests.len(), 0, self.policy);
        let ghost mut done: Seq<(int, int, usize)> = Seq::empty();
        let mut sketches: Vec<SyndromeSketch> = Vec::new();
        let mut total_work: usize = 0;
        proof {
            assert(done + stack_leaves(sorted, stack@) =~= leaves);
            roots_stop(sorted, requests, stack@, 0, self.policy);
        }
        while stack.len() > 0
            invariant
                sorted == self.index.sorted_h64@,
                requests == initial_requests@,
                ascending(sorted),
                leaves == build_leaves(sorted, requests, requests.len()),
                !too_deep(requests),
                goal == build_stop(sorted, requests, requests.len(), 0, self.policy),
                goal == stack_stop(sorted, stack@, leaf_work(done), self.policy),
                forall|i: int| 0 <= i < stack.len() ==> range_ok(sorted, #[trigger] stack@[i]),
                done + stack_leaves(sorted, stack@) == leaves,
                sketches@.len() == done.len(),
                forall|i: int|
                    0 <= i < done.len() ==> is_leaf_sketch(
                        sorted,
                        done[i],
                        #[trigger] sketches@[i],
                    ),
                total_work <= leaf_work(done),
                total_work < usize::MAX ==> total_work == leaf_work(done),
                !over_budget(leaf_work(done), self.policy.max_aggregate_work),
            decreases stack_weight(stack@),
        {
            let ghost full = stack@;
            let range: PendingRange = match stack.pop() {
                Some(range) => range,
                None => return Ok(SketchResult::FallbackToRangeSync),
            };
            let ghost rest = stack@;
            let ghost n = (full.len() - 1) as int;
            proof {
                assert(rest =~= full.drop_last());
                assert(full.last() == range);
                assert(range_ok(sorted, full[n]));
                assert forall|i: int| 0 <= i < rest.len() implies rest[i] == full[i] by {}
                lemma_pow2_unfold((65 - range.depth) as nat);
                lemma_pow2_pos((64 - range.depth) as nat);
            }
            let slice_len: usize = range.end - range.start;
            if slice_len > self.policy.hard_fallback_threshold {
                return Ok(SketchResult::FallbackToRangeSync);
            }
            let slice: &[u64] = vstd::slice::slice_subrange(
                self.index.sorted_h64,
                range.start,
                range.end,
            );
            if slice_len > range.capacity && range.depth < H64_TRIE_WIDTH {
                proof {
                    aligned_halves(sorted, range.start as int, range.end as int, range.depth);
                }
                if let Some((left, right)) = Self::split_range(slice, range.depth) {
                    let middle: usize = range.start + left.end;
                    let next: u8 = range.depth + 1;
                    proof {
                        let entries = sorted.subrange(range.start as int, range.end as int);
                        assert(slice@ == entries);
                        let mid = choose|mid: int| half_position(entries, range.depth, mid);
                        half_unique(entries, range.depth, mid, left.end as int);
                        aligned_children(
                            sorted,
                            range.start as int,
                            range.end as int,
                            range.depth,
                            left.end as int,
                        );
                        lemma_pow2_unfold((65 - range.depth) as nat);
                        lemma_pow2_pos((64 - range.depth) as nat);
                    }
                    let lower: PendingRange = PendingRange {
                        depth: next,
                        capacity: range.capacity,
                        start: range.start,
                        end: middle,
                    };
                    let upper: PendingRange = PendingRange {
                        depth: next,
                        capacity: range.capacity,
                        start: middle,
                        end: range.end,
                    };
                    stack.push(upper);
                    stack.push(lower);
                    proof {
                        assert(stack@.drop_last() =~= rest.push(upper));
                        assert(rest.push(upper).drop_last() =~= rest);
                        assert(stack_leaves(sorted, rest.push(upper)) == range_leaves(
                            sorted,
                            upper,
                        ) + stack_leaves(sorted, rest));
                        assert(stack@ =~= rest.push(upper).push(lower));
                        assert(full =~= rest.push(range));
                        assert(stack_leaves(sorted, stack@) =~= range_leaves(sorted, lower) + (
                        range_leaves(sorted, upper) + stack_leaves(sorted, rest)));
                        assert(stack_leaves(sorted, full) =~= stack_leaves(sorted, stack@));
                        weight_after_split(rest, range, upper, lower);
                        assert(range_ok(sorted, upper) && range_ok(sorted, lower));
                        stop_after_split(
                            sorted,
                            rest,
                            range,
                            upper,
                            lower,
                            leaf_work(done),
                            self.policy,
                        );
                    }
                    continue;
                }
            }
            let ghost leaf = (range.start as int, range.end as int, range.capacity);
            proof {
                assert(range_leaves(sorted, range) =~= seq![leaf]);
                assert(leaves =~= done.push(leaf) + stack_leaves(sorted, rest));
                assert(done.push(leaf).drop_last() =~= done);
                reveal_with_fuel(leaves_stop, 2);
                assert(leaves_stop(
                    sorted,
                    seq![leaf],
                    leaf_work(done),
                    self.policy.max_aggregate_work,
                ) == leaf_stop(sorted, leaf, leaf_work(done), self.policy.max_aggregate_work));
            }
            total_work = match total_work.checked_add(slice_len) {
                Some(total) => total,
                None => usize::MAX,
            };
            if total_work > self.policy.max_aggregate_work {
                return Ok(SketchResult::FallbackToRangeSync);
            }
            let sketch: SyndromeSketch = match sketch_slice(range.capacity, slice) {
                Ok(sketch) => sketch,
                Err(error) => return Err(error),
            };
            sketches.push(sketch);
            proof {
                done = done.push(leaf);
            }
        }
        proof {
            assert(done =~= leaves);
        }
        Ok(SketchResult::Success(sketches))
    }
}

proof fn weight_after_split(
    rest: Seq<PendingRange>,
    range: PendingRange,
    upper: PendingRange,
    lower: PendingRange,
)
    requires
        range.depth < 64,
        upper.depth == range.depth + 1,
        lower.depth == range.depth + 1,
    ensures
        stack_weight(rest.push(upper).push(lower)) < stack_weight(rest.push(range)),
{
    lemma_pow2_unfold((65 - range.depth) as nat);
    lemma_pow2_pos((64 - range.depth) as nat);
    assert(rest.push(upper).push(lower).drop_last() =~= rest.push(upper));
    assert(rest.push(upper).drop_last() =~= rest);
    assert(rest.push(range).drop_last() =~= rest);
    assert(stack_weight(rest.push(upper)) == stack_weight(rest) + range_weight(upper.depth));
}

/// The positions of a request's bucket are its range, and share leading bits.
proof fn root_is_aligned(sorted: Seq<u64>, request: BucketRequest, start: int, end: int)
    requires
        request.depth <= 64,
        bucket_positions(sorted, request.depth, request.prefix, start, end),
    ensures
        request_range(sorted, request) == (start, end),
        aligned(sorted, start, end, request.depth),
{
    let low = bucket_low(request.depth, request.prefix);
    let high = low + bucket_width(request.depth);
    position_unique(sorted, start, position_of(sorted, low), low);
    position_unique(sorted, end, position_of(sorted, high), high);
    assert forall|i: int, j: int|
        #![trigger sorted[i], sorted[j]]
        start <= i < end && start <= j < end implies sorted[i] as nat / bucket_width(request.depth)
        == sorted[j] as nat / bucket_width(request.depth) by {
        positions_hold_bucket(sorted, request.depth, request.prefix, start, end, i);
        positions_hold_bucket(sorted, request.depth, request.prefix, start, end, j);
    }
}

/// Every bound has its position in the index.
proof fn position_exists(sorted: Seq<u64>, bound: nat, n: nat)
    requires
        ascending(sorted),
        n <= sorted.len(),
        forall|i: int| n <= i < sorted.len() ==> #[trigger] sorted[i] as nat >= bound,
    ensures
        exists|position: int| splits_at(sorted, position, bound),
    decreases n,
{
    if n == 0 || (sorted[n - 1] as nat) < bound {
        assert forall|i: int| 0 <= i < n implies (#[trigger] sorted[i] as nat) < bound by {
            assert(sorted[i] <= sorted[n - 1]);
        }
        assert(splits_at(sorted, n as int, bound));
    } else {
        position_exists(sorted, bound, (n - 1) as nat);
    }
}

/// One range after the other covers a range: they start where it starts, end
/// where it ends, and leave nothing out between them.
pub open spec fn covers(leaves: Seq<(int, int, usize)>, start: int, end: int) -> bool {
    &&& leaves.len() > 0
    &&& leaves.first().0 == start
    &&& leaves.last().1 == end
    &&& forall|i: int, j: int|
        0 <= i && j == i + 1 && j < leaves.len() ==> (#[trigger] leaves[i]).1 == (
        #[trigger] leaves[j]).0
}

/// A range that need not be split: it fits the capacity, or splitting cannot
/// tell its identifiers apart.
pub open spec fn settled(sorted: Seq<u64>, leaf: (int, int, usize), capacity: usize) -> bool {
    &&& leaf.0 <= leaf.1
    &&& leaf.2 == capacity
    &&& leaf.1 - leaf.0 <= capacity || forall|i: int, j: int|
        leaf.0 <= i < leaf.1 && leaf.0 <= j < leaf.1 ==> #[trigger] sorted[i]
            == #[trigger] sorted[j]
}

proof fn leaf_ranges_cover(sorted: Seq<u64>, start: int, end: int, depth: u8, capacity: usize)
    requires
        ascending(sorted),
        0 <= start <= end <= sorted.len(),
        depth <= 64,
        aligned(sorted, start, end, depth),
    ensures
        ({
            let leaves = leaf_ranges(sorted, start, end, depth, capacity);
            &&& covers(leaves, start, end)
            &&& forall|i: int|
                0 <= i < leaves.len() ==> settled(sorted, #[trigger] leaves[i], capacity)
        }),
    decreases 64 - depth,
{
    let leaves = leaf_ranges(sorted, start, end, depth, capacity);
    if end - start > capacity && depth < 64 {
        aligned_halves(sorted, start, end, depth);
        let entries = sorted.subrange(start, end);
        half_exists(entries, depth, entries.len());
        let mid = choose|mid: int| half_position(entries, depth, mid);
        aligned_children(sorted, start, end, depth, mid);
        let next = (depth + 1) as u8;
        leaf_ranges_cover(sorted, start, start + mid, next, capacity);
        leaf_ranges_cover(sorted, start + mid, end, next, capacity);
        let a = leaf_ranges(sorted, start, start + mid, next, capacity);
        let b = leaf_ranges(sorted, start + mid, end, next, capacity);
        assert(leaves == a + b);
        assert forall|i: int, j: int|
            0 <= i && j == i + 1 && j < leaves.len() implies (#[trigger] leaves[i]).1 == (
        #[trigger] leaves[j]).0 by {
            if j < a.len() {
                assert(leaves[i] == a[i] && leaves[j] == a[j]);
            } else if i >= a.len() {
                assert(leaves[i] == b[i - a.len()] && leaves[j] == b[j - a.len()]);
            } else {
                assert(leaves[i] == a.last() && leaves[j] == b.first());
            }
        }
        assert forall|i: int| 0 <= i < leaves.len() implies settled(
            sorted,
            #[trigger] leaves[i],
            capacity,
        ) by {
            if i < a.len() {
                assert(leaves[i] == a[i]);
            } else {
                assert(leaves[i] == b[i - a.len()]);
            }
        }
    } else if end - start > capacity {
        lemma2_to64();
        assert(bucket_width(depth) == 1);
        assert forall|i: int, j: int| start <= i < end && start <= j < end implies #[trigger] sorted[
            i] == #[trigger] sorted[j] by {
            assert(sorted[i] as nat / bucket_width(depth) == sorted[j] as nat / bucket_width(
                depth,
            ));
            vstd::arithmetic::div_mod::lemma_div_basics(sorted[i] as int);
            vstd::arithmetic::div_mod::lemma_div_basics(sorted[j] as int);
        }
        assert(leaves =~= seq![(start, end, capacity)]);
    } else {
        assert(leaves =~= seq![(start, end, capacity)]);
    }
}

/// The ranges that a request is split into cover its bucket, and none of them
/// could be split further to any use.
pub proof fn request_is_covered(sorted: Seq<u64>, request: BucketRequest)
    requires
        ascending(sorted),
        request.depth <= 64,
    ensures
        ({
            let range = request_range(sorted, request);
            let leaves = leaf_ranges(
                sorted,
                range.0,
                range.1,
                request.depth,
                request.capacity,
            );
            &&& bucket_positions(sorted, request.depth, request.prefix, range.0, range.1)
            &&& covers(leaves, range.0, range.1)
            &&& forall|i: int|
                0 <= i < leaves.len() ==> settled(sorted, #[trigger] leaves[i], request.capacity)
        }),
{
    let low = bucket_low(request.depth, request.prefix);
    let high = low + bucket_width(request.depth);
    position_exists(sorted, low, sorted.len());
    position_exists(sorted, high, sorted.len());
    let (start, end) = request_range(sorted, request);
    assert(splits_at(sorted, start, low) && splits_at(sorted, end, high));
    if end < start {
        assert(sorted[end] as nat >= high);
        assert((sorted[end] as nat) < low);
    }
    root_is_aligned(sorted, request, start, end);
    leaf_ranges_cover(sorted, start, end, request.depth, request.capacity);
}

} // verus!
