//! Difference estimation and bucket localization.

use vstd::prelude::*;
use vstd::arithmetic::power2::{
    lemma2_to64, lemma_pow2_adds, lemma_pow2_pos, lemma_pow2_strictly_increases, pow2,
};
use vstd::bits::{lemma_u32_shl_is_mul, lemma_u64_shl_is_mul};
use super::algebraic::{
    cancelled, cancelled_facts, cancelled_is_symmetric_difference, coordinate_sum, decodes,
    parsed_coordinates, subtract_sketches, sufficient_below, AlgebraicError, SyndromeSketch,
};
use super::pinsketch::{decode_outcome, element_set, exhausts, sketch_of};
use super::resident::{
    in_stratum, in_stratum_facts, strata_are_sketches, strata_of, strata_partition, strata_view,
    stratum_of, stratum_sizes, STRATA_COUNT, STRATUM_CAPACITY,
};

verus! {

/// Maximum sum of capacities in one bucketed sketch request.
pub const MAX_BUCKETED_SKETCH_CAPACITY: usize = 4_096;

/// Maximum extraction capacity assigned to one bucket.
pub const MAX_BUCKET_SKETCH_CAPACITY: usize = 32;

/// Client-side sketch-mode cutoff for estimates in the saturated regime.
pub const SATURATED_DELTA_ESTIMATE: u64 = 0x4_0000_0000;

/// Minimum cardinality implied by an over-capacity stratum-0 decode failure.
pub const OVER_CAPACITY_DELTA_FLOOR: u64 = 9;

/// One localized sketch request.
#[derive(Debug, Clone, Copy, PartialEq, Eq, Structural)]
pub struct BucketRequest {
    pub depth: u8,
    pub prefix: u32,
    pub capacity: usize,
}

/// Roots recovered from one independently decoded bucket.
#[derive(Debug, Clone, PartialEq, Eq)]
pub struct BucketDecodeSuccess {
    pub depth: u8,
    pub prefix: u32,
    pub roots: Vec<u64>,
}

/// Partial result of decoding a concatenated bucket sketch.
#[derive(Debug, Clone, PartialEq, Eq)]
pub struct BucketDecodeBatch {
    pub successful_buckets: Vec<BucketDecodeSuccess>,
    /// Each entry is `(depth, prefix)`: the full bucket identifier, not prefix alone.
    pub failed_buckets: Vec<(u8, u32)>,
}

/// The width of a bucket's key-space range.
pub open spec fn range_width(request: BucketRequest) -> nat {
    if request.depth <= 32 {
        pow2((32 - request.depth) as nat)
    } else {
        1
    }
}

/// The start of a bucket's key-space range.
pub open spec fn range_start(request: BucketRequest) -> nat {
    request.prefix as nat * range_width(request)
}

/// The end of a bucket's key-space range.
pub open spec fn range_end(request: BucketRequest) -> nat {
    range_start(request) + range_width(request)
}

/// Returns the canonical start of a bucket's key-space range.
#[must_use]
pub(crate) fn bucket_range_start(request: &BucketRequest) -> (start: u64)
    ensures
        start == range_start(*request),
{
    let shift: u64 = if request.depth <= 32 {
        (32 - request.depth) as u64
    } else {
        0
    };
    proof {
        range_fits(*request);
        lemma2_to64();
        lemma_u64_shl_is_mul(request.prefix as u64, shift);
    }
    (request.prefix as u64) << shift
}

proof fn range_fits(request: BucketRequest)
    ensures
        range_start(request) <= u64::MAX,
        1 <= range_width(request) <= 0x1_0000_0000,
{
    let w = range_width(request);
    lemma2_to64();
    if request.depth <= 32 {
        lemma_pow2_pos((32 - request.depth) as nat);
        if request.depth > 0 {
            lemma_pow2_strictly_increases((32 - request.depth) as nat, 32);
        }
    }
    assert(request.prefix as nat * w <= 0xffff_ffff * 0x1_0000_0000) by (nonlinear_arith)
        requires
            request.prefix <= 0xffff_ffff,
            1 <= w <= 0x1_0000_0000,
    ;
}

/// Estimated symmetric-difference cardinality derived from the strata sketches.
#[derive(Debug, Clone, Copy, PartialEq, Eq, Structural)]
pub struct StrataEstimate {
    /// Estimated symmetric-difference cardinality.
    pub delta: u64,
    /// Whether the estimate is provisional because decoding stopped at an
    /// over-capacity stratum and had to extrapolate from the decoded tail.
    pub low_confidence: bool,
}

/// The sum of corresponding coordinates of two strata.
pub open spec fn residual_stratum(local: Seq<Seq<u64>>, remote: Seq<Seq<u64>>, i: int) -> Seq<u64> {
    Seq::new(8, |j: int| local[i][j] ^ remote[i][j])
}

/// One possible outcome of decoding the residual strata, from the sparsest
/// down to the first that fails.
pub open spec fn strata_outcomes(
    local: Seq<Seq<u64>>,
    remote: Seq<Seq<u64>>,
    outcomes: Seq<Result<Vec<u64>, AlgebraicError>>,
) -> bool {
    &&& outcomes.len() == 32
    &&& forall|i: int|
        0 <= i < 32 && decoded_from(outcomes, 32) <= i + 1 ==> decode_outcome(
            residual_stratum(local, remote, i),
            STRATUM_CAPACITY,
            #[trigger] outcomes[i],
        )
}

/// The number of elements decoded from the strata from `r` on.
pub open spec fn tail_count(outcomes: Seq<Result<Vec<u64>, AlgebraicError>>, r: int) -> nat
    decreases 32 - r,
{
    if r >= 32 {
        0
    } else {
        tail_count(outcomes, r + 1) + match outcomes[r] {
            Ok(roots) => roots.len() as nat,
            Err(_) => 0,
        }
    }
}

/// The lowest stratum of the longest decoded tail.
pub open spec fn decoded_from(outcomes: Seq<Result<Vec<u64>, AlgebraicError>>, r: int) -> int
    decreases r,
{
    if r <= 0 || outcomes[r - 1] is Err {
        r
    } else {
        decoded_from(outcomes, r - 1)
    }
}

/// The estimate that the outcomes of all strata give: exact where all decode,
/// saturated where not even the sparsest does, and otherwise the decoded tail
/// (at least the floor) scaled by the share of keys that it covers.
pub open spec fn strata_estimate(outcomes: Seq<Result<Vec<u64>, AlgebraicError>>) -> (nat, bool) {
    let r = decoded_from(outcomes, 32);
    let tail = tail_count(outcomes, r);
    if r == 0 {
        (tail, false)
    } else if r == 32 {
        (SATURATED_DELTA_ESTIMATE as nat, true)
    } else {
        let floored = if tail < OVER_CAPACITY_DELTA_FLOOR {
            OVER_CAPACITY_DELTA_FLOOR as nat
        } else {
            tail
        };
        (floored * pow2(r as nat), true)
    }
}

/// Estimates the symmetric difference from corresponding strata sketches.
///
/// # Errors
/// None: the work budget suffices for the strata's capacity.
pub fn estimate_delta(
    local: &[[u64; STRATUM_CAPACITY]; STRATA_COUNT],
    remote: &[[u64; STRATUM_CAPACITY]; STRATA_COUNT],
) -> (result: Result<u64, AlgebraicError>)
    ensures
        result matches Ok(delta) && exists|outcomes: Seq<Result<Vec<u64>, AlgebraicError>>|
            #[trigger]
            strata_outcomes(strata_view(*local), strata_view(*remote), outcomes) && delta
                == strata_estimate(outcomes).0,
{
    match estimate_delta_internal(local, remote) {
        Ok((delta, _)) => Ok(delta),
        Err(error) => Err(error),
    }
}

/// Estimates the symmetric difference and whether that estimate is provisional.
///
/// Starting at the sparsest stratum, this decodes the longest consecutive tail.
/// If `r` is the lowest decoded stratum and `T` is the decoded tail cardinality,
/// `T * 2^r` estimates the complete difference. Decoding every stratum yields
/// the exact cardinality.
///
/// If even the sparsest residual stratum overflows, this returns a saturated
/// estimate in [`StrataEstimate::delta`] and marks it
/// [`StrataEstimate::low_confidence`] so the caller can route away from sketch
/// mode.
///
/// # Errors
/// None: the work budget suffices for the strata's capacity.
pub fn estimate_strata(
    local: &[[u64; STRATUM_CAPACITY]; STRATA_COUNT],
    remote: &[[u64; STRATUM_CAPACITY]; STRATA_COUNT],
) -> (result: Result<StrataEstimate, AlgebraicError>)
    ensures
        result matches Ok(estimate) && exists|outcomes: Seq<Result<Vec<u64>, AlgebraicError>>|
            #[trigger]
            strata_outcomes(strata_view(*local), strata_view(*remote), outcomes) && (
            estimate.delta as nat,
            estimate.low_confidence,
        ) == strata_estimate(outcomes),
{
    match estimate_delta_internal(local, remote) {
        Ok((delta, low_confidence)) => Ok(StrataEstimate { delta, low_confidence }),
        Err(error) => Err(error),
    }
}

proof fn tail_count_agrees(
    a: Seq<Result<Vec<u64>, AlgebraicError>>,
    b: Seq<Result<Vec<u64>, AlgebraicError>>,
    r: int,
)
    requires
        0 <= r <= 32,
        forall|i: int| r <= i < 32 ==> #[trigger] a[i] == b[i],
    ensures
        tail_count(a, r) == tail_count(b, r),
    decreases 32 - r,
{
    if r < 32 {
        tail_count_agrees(a, b, r + 1);
        assert(a[r] == b[r]);
    }
}

proof fn decoded_from_walks(outcomes: Seq<Result<Vec<u64>, AlgebraicError>>, r: int)
    requires
        0 <= r <= 32,
        forall|i: int| r <= i < 32 ==> #[trigger] outcomes[i] is Ok,
    ensures
        decoded_from(outcomes, 32) == decoded_from(outcomes, r),
    decreases 32 - r,
{
    if r < 32 {
        decoded_from_walks(outcomes, r + 1);
        assert(outcomes[r] is Ok);
    }
}

/// The sum of two corresponding strata.
fn residual(
    local: &[[u64; STRATUM_CAPACITY]; STRATA_COUNT],
    remote: &[[u64; STRATUM_CAPACITY]; STRATA_COUNT],
    stratum: usize,
) -> (result: [u64; STRATUM_CAPACITY])
    requires
        stratum < 32,
    ensures
        result@ == residual_stratum(strata_view(*local), strata_view(*remote), stratum as int),
{
    let ours: [u64; STRATUM_CAPACITY] = local[stratum];
    let theirs: [u64; STRATUM_CAPACITY] = remote[stratum];
    let mut result: [u64; STRATUM_CAPACITY] = [0; STRATUM_CAPACITY];
    let mut place: usize = 0;
    while place < STRATUM_CAPACITY
        invariant
            place <= STRATUM_CAPACITY,
            forall|j: int| 0 <= j < place ==> #[trigger] result@[j] == ours@[j] ^ theirs@[j],
        decreases STRATUM_CAPACITY - place,
    {
        result[place] = ours[place] ^ theirs[place];
        place = place + 1;
    }
    proof {
        assert(result@ =~= residual_stratum(
            strata_view(*local),
            strata_view(*remote),
            stratum as int,
        ));
    }
    result
}

fn estimate_delta_internal(
    local: &[[u64; STRATUM_CAPACITY]; STRATA_COUNT],
    remote: &[[u64; STRATUM_CAPACITY]; STRATA_COUNT],
) -> (result: Result<(u64, bool), AlgebraicError>)
    ensures
        result matches Ok((delta, low_confidence)) && exists|
            outcomes: Seq<Result<Vec<u64>, AlgebraicError>>,
        | #[trigger]
            strata_outcomes(strata_view(*local), strata_view(*remote), outcomes) && (
            delta as nat,
            low_confidence,
        ) == strata_estimate(outcomes),
{
    let ghost ours = strata_view(*local);
    let ghost theirs = strata_view(*remote);
    let ghost mut outcomes: Seq<Result<Vec<u64>, AlgebraicError>> = Seq::new(
        32,
        |i: int| Err(AlgebraicError::DecodeFailure),
    );
    let mut decoded_tail: u64 = 0;
    let mut stratum: usize = STRATA_COUNT;
    while stratum > 0
        invariant
            stratum <= 32,
            ours == strata_view(*local),
            theirs == strata_view(*remote),
            outcomes.len() == 32,
            forall|i: int|
                stratum <= i < 32 ==> (#[trigger] outcomes[i]) is Ok && decode_outcome(
                    residual_stratum(ours, theirs, i),
                    STRATUM_CAPACITY,
                    outcomes[i],
                ),
            decoded_tail == tail_count(outcomes, stratum as int),
            decoded_tail <= 8 * (32 - stratum),
        decreases stratum,
    {
        let current: usize = stratum - 1;
        let sketch: [u64; STRATUM_CAPACITY] = residual(local, remote, current);
        proof {
            sufficient_below(8);
        }
        let outcome: Result<Vec<u64>, AlgebraicError> = super::pinsketch::decode(
            sketch.as_slice(),
            STRATUM_CAPACITY,
        );
        let ghost before = outcomes;
        proof {
            outcomes = outcomes.update(current as int, outcome);
            tail_count_agrees(before, outcomes, stratum as int);
        }
        match outcome {
            Ok(roots) => {
                decoded_tail = decoded_tail + roots.len() as u64;
                stratum = current;
            },
            Err(_) => {
                proof {
                    decoded_from_walks(outcomes, stratum as int);
                    assert(outcomes[current as int] is Err);
                    assert(decoded_from(outcomes, 32) == stratum);
                    assert(strata_outcomes(ours, theirs, outcomes));
                }
                if stratum == STRATA_COUNT {
                    return Ok((SATURATED_DELTA_ESTIMATE, true));
                }
                let tail: u64 = if decoded_tail < OVER_CAPACITY_DELTA_FLOOR {
                    OVER_CAPACITY_DELTA_FLOOR
                } else {
                    decoded_tail
                };
                proof {
                    lemma2_to64();
                    lemma_pow2_strictly_increases(stratum as nat, 32);
                    lemma_pow2_pos(stratum as nat);
                    lemma_u64_shl_is_mul(1, stratum as u64);
                    assert(tail * pow2(stratum as nat) <= 256 * 0x1_0000_0000) by (nonlinear_arith)
                        requires
                            0 <= tail <= 256,
                            0 <= pow2(stratum as nat) <= 0x1_0000_0000,
                    ;
                }
                return Ok((tail * (1u64 << (stratum as u64)), true));
            },
        }
    }
    proof {
        decoded_from_walks(outcomes, 0);
        assert(strata_outcomes(ours, theirs, outcomes));
    }
    Ok((decoded_tail, false))
}

/// Where each residual stratum is the sketch of a set within its capacity, the
/// estimate is the exact number of elements, with confidence.
pub proof fn strata_exact(
    local: Seq<Seq<u64>>,
    remote: Seq<Seq<u64>>,
    sets: Seq<Seq<u64>>,
    outcomes: Seq<Result<Vec<u64>, AlgebraicError>>,
)
    requires
        sets.len() == 32,
        forall|i: int|
            0 <= i < 32 ==> {
                &&& element_set(#[trigger] sets[i])
                &&& sets[i].len() <= STRATUM_CAPACITY
                &&& sketch_of(sets[i], residual_stratum(local, remote, i))
            },
        strata_outcomes(local, remote, outcomes),
    ensures
        strata_estimate(outcomes) == (set_sizes(sets, 0), false),
{
    let r = decoded_from(outcomes, 32);
    decoded_from_bounds(outcomes, 32);
    if r > 0 {
        assert(outcomes[r - 1] is Err);
        assert(element_set(sets[r - 1]));
        assert(decode_outcome(
            residual_stratum(local, remote, r - 1),
            STRATUM_CAPACITY,
            outcomes[r - 1],
        ));
        sufficient_below(8);
    }
    tail_is_sizes(local, remote, sets, outcomes, 0);
}

/// The sizes of the sets from `r` on, added up.
pub open spec fn set_sizes(sets: Seq<Seq<u64>>, r: int) -> nat
    decreases 32 - r,
{
    if r >= 32 {
        0
    } else {
        set_sizes(sets, r + 1) + sets[r].len()
    }
}

/// Two lists of distinct elements with the same members are equally long.
proof fn same_members_len(a: Seq<u64>, b: Seq<u64>)
    requires
        a.no_duplicates(),
        b.no_duplicates(),
        forall|x: u64| #[trigger] a.contains(x) <==> b.contains(x),
    ensures
        a.len() == b.len(),
{
    a.unique_seq_to_set();
    b.unique_seq_to_set();
    assert forall|x: u64| a.to_set().contains(x) <==> b.to_set().contains(x) by {
        assert(a.contains(x) <==> b.contains(x));
    }
    assert(a.to_set() =~= b.to_set());
}

proof fn set_sizes_of_strata(sets: Seq<Seq<u64>>, population: Seq<u64>, r: int)
    requires
        0 <= r <= 32,
        forall|i: int|
            0 <= i < 32 ==> (#[trigger] sets[i]).len() == in_stratum(population, i).len(),
    ensures
        set_sizes(sets, r) == stratum_sizes(population, r),
    decreases 32 - r,
{
    if r < 32 {
        set_sizes_of_strata(sets, population, r + 1);
        assert(sets[r].len() == in_stratum(population, r).len());
    }
}

/// Where two populations differ by at most the capacity in every stratum, the
/// estimate from their strata is the number of elements in one population and
/// not in the other, with confidence.
pub proof fn estimate_of_populations(
    local: Seq<u64>,
    remote: Seq<u64>,
    difference: Seq<u64>,
    outcomes: Seq<Result<Vec<u64>, AlgebraicError>>,
)
    requires
        element_set(local),
        element_set(remote),
        difference.no_duplicates(),
        forall|x: u64| #[trigger]
            difference.contains(x) <==> (local.contains(x) != remote.contains(x)),
        forall|i: int|
            0 <= i < 32 ==> (#[trigger] in_stratum(difference, i)).len() <= STRATUM_CAPACITY,
        strata_outcomes(strata_of(local), strata_of(remote), outcomes),
    ensures
        strata_estimate(outcomes) == (difference.len(), false),
{
    let sets = Seq::new(
        32,
        |i: int| cancelled(in_stratum(local, i) + in_stratum(remote, i)),
    );
    assert forall|i: int| 0 <= i < 32 implies {
        &&& element_set(#[trigger] sets[i])
        &&& sets[i].len() == in_stratum(difference, i).len()
        &&& sketch_of(sets[i], residual_stratum(strata_of(local), strata_of(remote), i))
    } by {
        let (ours, theirs) = (in_stratum(local, i), in_stratum(remote, i));
        in_stratum_facts(local, i);
        in_stratum_facts(remote, i);
        in_stratum_facts(difference, i);
        strata_are_sketches(local, i);
        strata_are_sketches(remote, i);
        subtract_sketches(ours, theirs, strata_of(local)[i], strata_of(remote)[i]);
        assert(residual_stratum(strata_of(local), strata_of(remote), i) =~= coordinate_sum(
            strata_of(local)[i],
            strata_of(remote)[i],
        ));
        cancelled_facts(ours + theirs);
        assert forall|x: u64| #[trigger] sets[i].contains(x) <==> in_stratum(
            difference,
            i,
        ).contains(x) by {
            cancelled_is_symmetric_difference(ours, theirs, x);
            assert(ours.contains(x) <==> local.contains(x) && stratum_of(x) == i);
            assert(theirs.contains(x) <==> remote.contains(x) && stratum_of(x) == i);
            assert(difference.contains(x) <==> (local.contains(x) != remote.contains(x)));
        }
        same_members_len(sets[i], in_stratum(difference, i));
        assert(!sets[i].contains(0)) by {
            cancelled_is_symmetric_difference(ours, theirs, 0);
            assert(!ours.contains(0));
            assert(!theirs.contains(0));
        }
    }
    assert forall|i: int| 0 <= i < 32 implies {
        &&& element_set(#[trigger] sets[i])
        &&& sets[i].len() <= STRATUM_CAPACITY
        &&& sketch_of(sets[i], residual_stratum(strata_of(local), strata_of(remote), i))
    } by {
        assert(in_stratum(difference, i).len() <= STRATUM_CAPACITY);
    }
    strata_exact(strata_of(local), strata_of(remote), sets, outcomes);
    set_sizes_of_strata(sets, difference, 0);
    strata_partition(difference);
}

pub proof fn decoded_from_bounds(outcomes: Seq<Result<Vec<u64>, AlgebraicError>>, r: int)
    requires
        0 <= r <= 32,
    ensures
        0 <= decoded_from(outcomes, r) <= r,
        decoded_from(outcomes, r) > 0 ==> outcomes[decoded_from(outcomes, r) - 1] is Err,
        forall|i: int| decoded_from(outcomes, r) <= i < r ==> #[trigger] outcomes[i] is Ok,
    decreases r,
{
    if r > 0 && outcomes[r - 1] is Ok {
        decoded_from_bounds(outcomes, r - 1);
    }
}

proof fn tail_is_sizes(
    local: Seq<Seq<u64>>,
    remote: Seq<Seq<u64>>,
    sets: Seq<Seq<u64>>,
    outcomes: Seq<Result<Vec<u64>, AlgebraicError>>,
    r: int,
)
    requires
        0 <= r <= 32,
        sets.len() == 32,
        forall|i: int|
            0 <= i < 32 ==> {
                &&& element_set(#[trigger] sets[i])
                &&& sets[i].len() <= STRATUM_CAPACITY
                &&& sketch_of(sets[i], residual_stratum(local, remote, i))
            },
        strata_outcomes(local, remote, outcomes),
        decoded_from(outcomes, 32) == 0,
    ensures
        tail_count(outcomes, r) == set_sizes(sets, r),
    decreases 32 - r,
{
    if r < 32 {
        tail_is_sizes(local, remote, sets, outcomes, r + 1);
        decoded_from_bounds(outcomes, 32);
        assert(outcomes[r] is Ok);
        assert(element_set(sets[r]));
        assert(decode_outcome(residual_stratum(local, remote, r), STRATUM_CAPACITY, outcomes[r]));
        let roots = outcomes[r]->Ok_0;
        assert(roots@.to_multiset() =~= sets[r].to_multiset());
        vstd::seq_lib::to_multiset_len(roots@);
        vstd::seq_lib::to_multiset_len(sets[r]);
    }
}

/// The capacities of the first `n` requests, added up.
pub open spec fn total_capacity(requests: Seq<BucketRequest>, n: nat) -> nat
    decreases n,
{
    if n == 0 {
        0
    } else {
        total_capacity(requests, (n - 1) as nat) + requests[n - 1].capacity as nat
    }
}

/// The bucket exists: its depth is within bounds and its prefix fits the depth.
pub open spec fn valid_bucket(request: BucketRequest) -> bool {
    request.depth <= 32 && (request.prefix as nat) < pow2(request.depth as nat)
}

/// What is wrong with a request, given that those before it are in order.
pub open spec fn request_problem(requests: Seq<BucketRequest>, k: int) -> Option<AlgebraicError> {
    let request = requests[k];
    if !(0 < request.capacity <= MAX_BUCKET_SKETCH_CAPACITY) {
        Some(AlgebraicError::InvalidSketchCapacity)
    } else if !valid_bucket(request) {
        Some(AlgebraicError::InvalidBucketIndex)
    } else if total_capacity(requests, (k + 1) as nat) > MAX_BUCKETED_SKETCH_CAPACITY {
        Some(AlgebraicError::InvalidSketchCapacity)
    } else if k > 0 && range_start(request) < range_end(requests[k - 1]) {
        Some(AlgebraicError::InvalidBucketIndex)
    } else {
        None
    }
}

/// No request has a problem.
pub open spec fn valid_requests(requests: Seq<BucketRequest>) -> bool {
    forall|k: int| 0 <= k < requests.len() ==> #[trigger] request_problem(requests, k) is None
}

/// The first problem in a list of requests.
pub open spec fn first_problem(requests: Seq<BucketRequest>, error: AlgebraicError) -> bool {
    exists|k: int|
        0 <= k < requests.len() && #[trigger] request_problem(requests, k) == Some(error) && forall|
            j: int,
        |
            0 <= j < k ==> #[trigger] request_problem(requests, j) is None
}

/// Validates a list of bucket requests to ensure they adhere to limits and form an antichain.
///
/// No request exceeds the per-node extraction limit
/// (`MAX_BUCKET_SKETCH_CAPACITY`), the overall extraction respects
/// `MAX_BUCKETED_SKETCH_CAPACITY`, bucket indices are well-formed, and ranges
/// are disjoint and in ascending order.
///
/// # Errors
/// Returns an error if any capacity or bound constraint is violated, or if the requests
/// overlap.
pub fn validate_bucket_requests(requests: &[BucketRequest]) -> (result: Result<(), AlgebraicError>)
    ensures
        match result {
            Ok(_) => valid_requests(requests@),
            Err(error) => first_problem(requests@, error),
        },
{
    let mut total: usize = 0;
    let mut previous_end: u64 = 0;
    let mut index: usize = 0;
    while index < requests.len()
        invariant
            index <= requests.len(),
            total == total_capacity(requests@, index as nat),
            total <= MAX_BUCKETED_SKETCH_CAPACITY,
            index == 0 ==> previous_end == 0,
            index > 0 ==> previous_end == range_end(requests@[index - 1]),
            forall|j: int|
                0 <= j < index ==> #[trigger] request_problem(requests@, j) is None,
        decreases requests.len() - index,
    {
        let request: BucketRequest = requests[index];
        let ghost problem = request_problem(requests@, index as int);
        if request.capacity == 0 || request.capacity > MAX_BUCKET_SKETCH_CAPACITY {
            return Err(AlgebraicError::InvalidSketchCapacity);
        }
        if request.depth > 32 {
            return Err(AlgebraicError::InvalidBucketIndex);
        }
        proof {
            lemma2_to64();
            if request.depth < 32 {
                lemma_pow2_strictly_increases(request.depth as nat, 32);
                lemma_u32_shl_is_mul(1, request.depth as u32);
            }
        }
        if request.depth < 32 && request.prefix >= (1u32 << (request.depth as u32)) {
            return Err(AlgebraicError::InvalidBucketIndex);
        }
        assert(valid_bucket(request));
        total = total + request.capacity;
        if total > MAX_BUCKETED_SKETCH_CAPACITY {
            return Err(AlgebraicError::InvalidSketchCapacity);
        }
        let start: u64 = bucket_range_start(&request);
        let shift: u64 = (32 - request.depth) as u64;
        proof {
            range_within(request);
            lemma_pow2_pos(shift as nat);
            lemma_u64_shl_is_mul(1, shift);
        }
        let end: u64 = start + (1u64 << shift);
        if start < previous_end {
            return Err(AlgebraicError::InvalidBucketIndex);
        }
        previous_end = end;
        index = index + 1;
    }
    Ok(())
}

/// A bucket's range lies within the 32-bit key space.
pub proof fn range_within(request: BucketRequest)
    requires
        valid_bucket(request),
    ensures
        range_end(request) <= 0x1_0000_0000,
        range_width(request) >= 1,
{
    let d = request.depth as nat;
    let e = (32 - request.depth) as nat;
    lemma2_to64();
    lemma_pow2_pos(e);
    lemma_pow2_adds(d, e);
    let p = request.prefix as nat;
    assert(p * pow2(e) + pow2(e) <= pow2(d) * pow2(e)) by (nonlinear_arith)
        requires
            p + 1 <= pow2(d),
            pow2(e) >= 1,
    ;
}

/// `a` contains `b`: the leading bits of `b`'s prefix are `a`'s prefix.
pub open spec fn ancestor(a: BucketRequest, b: BucketRequest) -> bool {
    a.depth <= b.depth && a.prefix as nat == b.prefix as nat / pow2((b.depth - a.depth) as nat)
}

pub proof fn ranges_ascend(requests: Seq<BucketRequest>, i: int, j: int)
    requires
        valid_requests(requests),
        0 <= i < j < requests.len(),
    ensures
        range_end(requests[i]) <= range_start(requests[j]),
    decreases j - i,
{
    assert(request_problem(requests, j) is None);
    if i < j - 1 {
        ranges_ascend(requests, i, j - 1);
        assert(request_problem(requests, j - 1) is None);
        range_within(requests[j - 1]);
    }
}

/// Valid requests form an antichain: no bucket contains another.
pub proof fn valid_requests_antichain(requests: Seq<BucketRequest>, i: int, j: int)
    requires
        valid_requests(requests),
        0 <= i < requests.len(),
        0 <= j < requests.len(),
        i != j,
    ensures
        !ancestor(requests[i], requests[j]),
{
    let a = requests[i];
    let b = requests[j];
    assert(request_problem(requests, i) is None);
    assert(request_problem(requests, j) is None);
    range_within(a);
    range_within(b);
    if i < j {
        ranges_ascend(requests, i, j);
    } else {
        ranges_ascend(requests, j, i);
    }
    if ancestor(a, b) {
        let e = (b.depth - a.depth) as nat;
        let w = range_width(b);
        lemma_pow2_pos(e);
        lemma_pow2_adds(e, (32 - b.depth) as nat);
        assert(range_width(a) == pow2(e) * w);
        let p = b.prefix as nat;
        let q = a.prefix as nat;
        vstd::arithmetic::div_mod::lemma_fundamental_div_mod(p as int, pow2(e) as int);
        vstd::arithmetic::div_mod::lemma_mod_bound(p as int, pow2(e) as int);
        let s = pow2(e);
        assert(q * (s * w) <= p * w && p * w + w <= q * (s * w) + s * w) by (nonlinear_arith)
            requires
                p as int == (s as int) * (q as int) + (p as int) % (s as int),
                0 <= (p as int) % (s as int) < s as int,
                w >= 1,
                s >= 1,
        ;
    }
}

/// A valid list of requests has no first problem, and an invalid one has one.
pub proof fn valid_or_problem(requests: Seq<BucketRequest>, error: AlgebraicError)
    requires
        first_problem(requests, error),
    ensures
        !valid_requests(requests),
        error == AlgebraicError::InvalidSketchCapacity || error
            == AlgebraicError::InvalidBucketIndex,
{
}

/// The coordinates of the `i`-th requested bucket in the concatenated bytes.
pub open spec fn bucket_coordinates(
    encoded: Seq<u8>,
    requests: Seq<BucketRequest>,
    i: int,
) -> Seq<u64> {
    let start = 8 * total_capacity(requests, i as nat);
    parsed_coordinates(
        encoded.subrange(start as int, start + 8 * requests[i].capacity),
        requests[i].capacity as nat,
    )
}

/// One possible outcome of decoding each of the first `n` buckets.
pub open spec fn bucket_outcomes(
    encoded: Seq<u8>,
    requests: Seq<BucketRequest>,
    n: nat,
    outcomes: Seq<Result<Vec<u64>, AlgebraicError>>,
) -> bool {
    &&& outcomes.len() == n
    &&& forall|i: int|
        0 <= i < n ==> decodes(
            bucket_coordinates(encoded, requests, i),
            requests[i].capacity,
            #[trigger] outcomes[i],
        )
}

/// Every bucket decoded, or failed to decode on its own account: nothing that
/// ends the batch.
pub open spec fn all_isolated(outcomes: Seq<Result<Vec<u64>, AlgebraicError>>) -> bool {
    forall|i: int|
        0 <= i < outcomes.len() ==> (#[trigger] outcomes[i]) is Ok || outcomes[i] == Err::<
            Vec<u64>,
            AlgebraicError,
        >(AlgebraicError::DecodeFailure)
}

/// How a batch ends after its first buckets: at a bucket that the bytes do not
/// hold in full or whose decoding exhausts the budget, or after all of them, with
/// an error where bytes are left over.
pub open spec fn batch_ends(
    encoded: Seq<u8>,
    requests: Seq<BucketRequest>,
    outcomes: Seq<Result<Vec<u64>, AlgebraicError>>,
    result: Result<BucketDecodeBatch, AlgebraicError>,
) -> bool {
    let n = outcomes.len();
    &&& n <= requests.len()
    &&& encoded.len() >= 8 * total_capacity(requests, n)
    &&& if n < requests.len() {
        if encoded.len() < 8 * total_capacity(requests, n + 1) {
            result == Err::<BucketDecodeBatch, AlgebraicError>(AlgebraicError::InvalidSketchLength)
        } else {
            &&& result == Err::<BucketDecodeBatch, AlgebraicError>(AlgebraicError::BudgetExhausted)
            &&& requests[n as int].capacity > 16
            &&& exhausts(
                bucket_coordinates(encoded, requests, n as int),
                requests[n as int].capacity,
            )
        }
    } else if encoded.len() != 8 * total_capacity(requests, n) {
        result == Err::<BucketDecodeBatch, AlgebraicError>(AlgebraicError::InvalidSketchLength)
    } else {
        result matches Ok(batch) && batch_is(batch, requests, outcomes, n)
    }
}

/// A decoded bucket by its contents.
pub open spec fn success_view(success: BucketDecodeSuccess) -> (u8, u32, Seq<u64>) {
    (success.depth, success.prefix, success.roots@)
}

/// The buckets that decoded, in request order, with their roots.
pub open spec fn successes(
    requests: Seq<BucketRequest>,
    outcomes: Seq<Result<Vec<u64>, AlgebraicError>>,
    n: nat,
) -> Seq<(u8, u32, Seq<u64>)>
    decreases n,
{
    if n == 0 {
        Seq::empty()
    } else {
        let init = successes(requests, outcomes, (n - 1) as nat);
        match outcomes[n - 1] {
            Ok(roots) => init.push((requests[n - 1].depth, requests[n - 1].prefix, roots@)),
            Err(_) => init,
        }
    }
}

/// The buckets that did not decode, in request order.
pub open spec fn failures(
    requests: Seq<BucketRequest>,
    outcomes: Seq<Result<Vec<u64>, AlgebraicError>>,
    n: nat,
) -> Seq<(u8, u32)>
    decreases n,
{
    if n == 0 {
        Seq::empty()
    } else {
        let init = failures(requests, outcomes, (n - 1) as nat);
        match outcomes[n - 1] {
            Ok(_) => init,
            Err(_) => init.push((requests[n - 1].depth, requests[n - 1].prefix)),
        }
    }
}

/// The contents of a batch.
pub open spec fn batch_is(
    batch: BucketDecodeBatch,
    requests: Seq<BucketRequest>,
    outcomes: Seq<Result<Vec<u64>, AlgebraicError>>,
    n: nat,
) -> bool {
    &&& Seq::new(
        batch.successful_buckets@.len(),
        |i: int| success_view(batch.successful_buckets@[i]),
    ) == successes(requests, outcomes, n)
    &&& batch.failed_buckets@ == failures(requests, outcomes, n)
}

/// Parses and independently decodes concatenated residual bucket sketches.
///
/// Requests are validated in canonical key-space range order. Each requested
/// sketch is serialized as little-endian syndrome coordinates with no length
/// prefix; the request capacities define the boundaries.
///
/// Structural and budget errors abort the batch. A normal decode failure is
/// isolated to its bucket so successfully decoded roots can be retained.
///
/// # Errors
/// Returns an error for invalid ordering, capacity, aggregate or byte length,
/// or when a decoder exceeds its work budget.
pub fn decode_bucket_sketches(encoded: &[u8], requests: &[BucketRequest]) -> (result: Result<
    BucketDecodeBatch,
    AlgebraicError,
>)
    ensures
        if valid_requests(requests@) {
            exists|outcomes: Seq<Result<Vec<u64>, AlgebraicError>>| #[trigger]
                bucket_outcomes(encoded@, requests@, outcomes.len(), outcomes) && all_isolated(
                    outcomes,
                ) && batch_ends(encoded@, requests@, outcomes, result)
        } else {
            result matches Err(error) && first_problem(requests@, error)
        },
{
    match validate_bucket_requests(requests) {
        Ok(_) => {},
        Err(error) => {
            proof {
                valid_or_problem(requests@, error);
            }
            return Err(error);
        },
    }
    let mut offset: usize = 0;
    let mut batch: BucketDecodeBatch = BucketDecodeBatch {
        successful_buckets: Vec::new(),
        failed_buckets: Vec::new(),
    };
    let ghost mut outcomes: Seq<Result<Vec<u64>, AlgebraicError>> = Seq::empty();
    proof {
        assert(Seq::new(
            batch.successful_buckets@.len(),
            |i: int| success_view(batch.successful_buckets@[i]),
        ) =~= successes(requests@, outcomes, 0));
    }
    let mut index: usize = 0;
    while index < requests.len()
        invariant
            index <= requests.len(),
            valid_requests(requests@),
            offset == 8 * total_capacity(requests@, index as nat),
            offset <= encoded.len(),
            bucket_outcomes(encoded@, requests@, index as nat, outcomes),
            all_isolated(outcomes),
            batch_is(batch, requests@, outcomes, index as nat),
        decreases requests.len() - index,
    {
        let request: BucketRequest = requests[index];
        proof {
            assert(request_problem(requests@, index as int) is None);
            total_capacity_monotone(requests@, (index + 1) as nat, requests@.len());
        }
        let byte_len: usize = request.capacity * 8;
        if encoded.len() - offset < byte_len {
            proof {
                assert(batch_ends(
                    encoded@,
                    requests@,
                    outcomes,
                    Err(AlgebraicError::InvalidSketchLength),
                ));
            }
            return Err(AlgebraicError::InvalidSketchLength);
        }
        let ghost coordinates = bucket_coordinates(encoded@, requests@, index as int);
        let bytes: &[u8] = vstd::slice::slice_subrange(encoded, offset, offset + byte_len);
        offset = offset + byte_len;
        let sketch: SyndromeSketch = match SyndromeSketch::from_encoded_bytes(
            request.capacity,
            bytes,
        ) {
            Ok(sketch) => sketch,
            Err(error) => return Err(error),
        };
        proof {
            assert(sketch.coordinates@ =~= coordinates);
        }
        let outcome: Result<Vec<u64>, AlgebraicError> = sketch.decode_elements(request.capacity);
        let ghost before = outcomes;
        let ghost successful = batch.successful_buckets@;
        proof {
            assert(decodes(coordinates, request.capacity, outcome));
            outcomes = outcomes.push(outcome);
            successes_agree(requests@, before, outcomes, index as nat);
        }
        match outcome {
            Ok(roots) => {
                let success: BucketDecodeSuccess = BucketDecodeSuccess {
                    depth: request.depth,
                    prefix: request.prefix,
                    roots,
                };
                batch.successful_buckets.push(success);
                proof {
                    let views = Seq::new(
                        batch.successful_buckets@.len(),
                        |i: int| success_view(batch.successful_buckets@[i]),
                    );
                    let earlier = Seq::new(successful.len(), |i: int| success_view(successful[i]));
                    assert(views =~= earlier.push(success_view(success)));
                }
            },
            Err(AlgebraicError::DecodeFailure) => {
                batch.failed_buckets.push((request.depth, request.prefix));
                proof {
                    assert(batch.successful_buckets@ == successful);
                }
            },
            Err(error) => {
                proof {
                    assert(coordinates.take(request.capacity as int) =~= coordinates);
                    assert(batch_ends(encoded@, requests@, before, Err(error)));
                }
                return Err(error);
            },
        }
        index = index + 1;
    }
    if offset != encoded.len() {
        return Err(AlgebraicError::InvalidSketchLength);
    }
    Ok(batch)
}

pub proof fn total_capacity_monotone(requests: Seq<BucketRequest>, a: nat, b: nat)
    requires
        a <= b,
    ensures
        total_capacity(requests, a) <= total_capacity(requests, b),
    decreases b,
{
    if a < b {
        total_capacity_monotone(requests, a, (b - 1) as nat);
    }
}

proof fn successes_agree(
    requests: Seq<BucketRequest>,
    a: Seq<Result<Vec<u64>, AlgebraicError>>,
    b: Seq<Result<Vec<u64>, AlgebraicError>>,
    n: nat,
)
    requires
        n <= a.len(),
        n <= b.len(),
        forall|i: int| 0 <= i < n ==> #[trigger] a[i] == b[i],
    ensures
        successes(requests, a, n) == successes(requests, b, n),
        failures(requests, a, n) == failures(requests, b, n),
    decreases n,
{
    if n > 0 {
        successes_agree(requests, a, b, (n - 1) as nat);
        assert(a[n - 1] == b[n - 1]);
    }
}

} // verus!
