//! Requester-side reconciliation decisions and verification.

use vstd::prelude::*;
use vstd::arithmetic::power2::{
    lemma2_to64, lemma_pow2_adds, lemma_pow2_pos, lemma_pow2_unfold, pow2,
};
use super::algebraic::{
    toggle_extends, valid_capacity, AlgebraicError, ElementHash, SyndromeSketch,
    MAX_LOCAL_SKETCH_DECODE_CAPACITY,
};
use super::pinsketch::sketch_of;
use super::resident::{strata_view, ResidentKernel, STRATA_COUNT, STRATUM_CAPACITY};
use super::triage::{
    range_width, request_problem, strata_estimate, strata_outcomes, total_capacity, valid_bucket,
    valid_requests, BucketDecodeBatch, BucketDecodeSuccess, BucketRequest, StrataEstimate,
    MAX_BUCKETED_SKETCH_CAPACITY, MAX_BUCKET_SKETCH_CAPACITY,
};

verus! {

/// Baseline policy limit for maximum reconciliation rounds in a single exchange.
///
/// Paired with [`MAX_BUCKETED_SKETCH_CAPACITY`], the default 20-round limit yields a
/// default operating point of ~82,000 differing elements before falling back to
/// extremity-based frame diffing under default client policy.
pub const MAX_RECONCILIATION_ROUNDS: usize = 20;

/// Requester policy for one reconciliation exchange.
#[derive(Debug, Clone, Copy, PartialEq, Eq)]
pub struct ReconciliationClient {
    pub max_sketch_capacity: usize,
    pub max_rounds: usize,
    pub gate_threshold: Option<u64>,
}

/// Information learned from the responder's room digest.
#[derive(Debug, Clone, Copy, PartialEq, Eq)]
pub struct RemoteDigest {
    pub digest: u128,
    pub known_event_count: u64,
    pub strata: [[u64; STRATUM_CAPACITY]; STRATA_COUNT],
    /// Whether both digests cover the same frame anchors.
    pub frame_matches: bool,
    /// Whether the responder advertised an extremity unknown to the requester.
    pub has_unknown_extremity: bool,
}

/// The next request selected by the reconciliation client.
#[derive(Debug, Clone, PartialEq, Eq)]
pub enum ClientAction {
    /// The frame digest and count agree; no request is needed.
    Synchronized,
    /// Locate a common DAG anchor before attempting set extraction.
    ExtremityDiff,
    /// Retry independently decoded bucket sketches.
    BucketSketches { requests: Vec<BucketRequest>, accumulated_roots: Vec<u64> },
    /// All requested buckets decoded and are ready for host-side resolution.
    ResolveRoots { roots: Vec<u64> },
}

/// The smaller of two numbers.
pub open spec fn least(a: nat, b: nat) -> nat {
    if a < b {
        a
    } else {
        b
    }
}

/// The larger of two numbers.
pub open spec fn greatest(a: nat, b: nat) -> nat {
    if a < b {
        b
    } else {
        a
    }
}

/// A number moved into bounds.
pub open spec fn clamped(x: nat, low: nat, high: nat) -> nat {
    least(greatest(x, low), high)
}

/// The difference between two counts.
pub open spec fn count_delta(a: u64, b: u64) -> nat {
    if a < b {
        (b - a) as nat
    } else {
        (a - b) as nat
    }
}

/// One and a half times the estimate, rounded up, plus a margin of four.
pub open spec fn provisioned(estimate: nat) -> nat {
    estimate + (estimate + 1) / 2 + 4
}

/// The capacity to request for an estimate.
pub open spec fn target_capacity(estimate: nat, headroom: nat) -> nat {
    least(provisioned(estimate) + headroom, usize::MAX as nat)
}

/// The smallest depth from `depth` on, up to six, whose buckets hold the target.
pub open spec fn bucket_depth(target: nat, depth: nat) -> nat
    decreases 6 - depth,
{
    if depth >= 6 || 32 * pow2(depth) >= target {
        depth
    } else {
        bucket_depth(target, depth + 1)
    }
}

/// The capacity of each bucket.
pub open spec fn bucket_capacity(target: nat, depth: nat) -> nat {
    clamped((target + pow2(depth) - 1) as nat / pow2(depth), 4, 32)
}

/// One request per bucket of a depth, all of one capacity.
pub open spec fn uniform_requests(depth: nat, capacity: nat) -> Seq<BucketRequest> {
    Seq::new(
        pow2(depth),
        |i: int| BucketRequest { depth: depth as u8, prefix: i as u32, capacity: capacity as usize },
    )
}

/// The action that an estimate leads to once the digests differ.
pub open spec fn estimated_action(
    gate: Option<u64>,
    estimate: nat,
    headroom: nat,
    action: ClientAction,
) -> bool {
    if gate matches Some(threshold) && estimate > threshold {
        action == ClientAction::ExtremityDiff
    } else {
        let target = target_capacity(estimate, headroom);
        let depth = bucket_depth(target, 0);
        action matches ClientAction::BucketSketches { requests, accumulated_roots } && requests@
            == uniform_requests(depth, bucket_capacity(target, depth)) && accumulated_roots@.len()
            == 0
    }
}

/// The action that local and remote state lead to.
pub open spec fn selection(
    client: ReconciliationClient,
    local: ResidentKernel,
    remote: RemoteDigest,
    concurrency_headroom: usize,
    action: ClientAction,
) -> bool {
    let same = local.accumulator.digest == remote.digest && local.accumulator.count
        == remote.known_event_count;
    &&& !remote.frame_matches || remote.has_unknown_extremity ==> action
        == ClientAction::ExtremityDiff
    &&& remote.frame_matches && !remote.has_unknown_extremity && same ==> action
        == ClientAction::Synchronized
    &&& remote.frame_matches && !remote.has_unknown_extremity && !same ==> exists|
        outcomes: Seq<Result<Vec<u64>, AlgebraicError>>,
    | #[trigger]
        strata_outcomes(strata_view(local.strata), strata_view(remote.strata), outcomes)
            && estimated_action(
            client.gate_threshold,
            greatest(
                strata_estimate(outcomes).0,
                count_delta(local.accumulator.count, remote.known_event_count),
            ),
            concurrency_headroom as nat,
            action,
        )
}

/// A gate threshold for a number of rounds.
pub open spec fn rounds_threshold(max_rounds: usize) -> nat {
    least(max_rounds as nat * 4096, usize::MAX as nat)
}

fn rounds_gate(max_rounds: usize) -> (threshold: Option<u64>)
    ensures
        threshold matches Some(value) && value == rounds_threshold(max_rounds),
{
    match max_rounds.checked_mul(MAX_BUCKETED_SKETCH_CAPACITY) {
        Some(value) => Some(value as u64),
        None => Some(usize::MAX as u64),
    }
}

impl Default for ReconciliationClient {
    fn default() -> (result: Self)
        ensures
            result.max_sketch_capacity == MAX_LOCAL_SKETCH_DECODE_CAPACITY,
            result.max_rounds == MAX_RECONCILIATION_ROUNDS,
            result.gate_threshold == Some(81_920u64),
    {
        ReconciliationClient {
            max_sketch_capacity: MAX_LOCAL_SKETCH_DECODE_CAPACITY,
            max_rounds: MAX_RECONCILIATION_ROUNDS,
            gate_threshold: rounds_gate(MAX_RECONCILIATION_ROUNDS),
        }
    }
}

impl ReconciliationClient {
    /// Creates a requester with an explicit local unbucketed decode limit.
    ///
    /// # Errors
    /// Returns [`AlgebraicError::InvalidSketchCapacity`] for a zero limit or a
    /// limit above the implementation's local decode policy.
    pub fn new(max_sketch_capacity: usize) -> (result: Result<Self, AlgebraicError>)
        ensures
            match result {
                Ok(client) => {
                    &&& valid_capacity(max_sketch_capacity)
                    &&& client.max_sketch_capacity == max_sketch_capacity
                    &&& client.max_rounds == MAX_RECONCILIATION_ROUNDS
                    &&& client.gate_threshold == Some(81_920u64)
                },
                Err(error) => !valid_capacity(max_sketch_capacity) && error
                    == AlgebraicError::InvalidSketchCapacity,
            },
    {
        if max_sketch_capacity == 0 || max_sketch_capacity > MAX_LOCAL_SKETCH_DECODE_CAPACITY {
            return Err(AlgebraicError::InvalidSketchCapacity);
        }
        Ok(
            ReconciliationClient {
                max_sketch_capacity,
                max_rounds: MAX_RECONCILIATION_ROUNDS,
                gate_threshold: rounds_gate(MAX_RECONCILIATION_ROUNDS),
            },
        )
    }

    /// Sets a custom maximum round count for the reconciliation client,
    /// adjusting the delta cutoff accordingly.
    #[must_use]
    pub fn with_max_rounds(self, max_rounds: usize) -> (result: Self)
        ensures
            result.max_sketch_capacity == self.max_sketch_capacity,
            result.max_rounds == max_rounds,
            result.gate_threshold matches Some(value) && value == rounds_threshold(max_rounds),
    {
        ReconciliationClient {
            max_sketch_capacity: self.max_sketch_capacity,
            max_rounds,
            gate_threshold: rounds_gate(max_rounds),
        }
    }

    /// Sets an explicit cutoff on the maximum estimated delta.
    /// Pass `None` to disable the cutoff entirely for large syncs.
    #[must_use]
    pub fn with_gate_threshold(self, threshold: Option<u64>) -> (result: Self)
        ensures
            result.max_sketch_capacity == self.max_sketch_capacity,
            result.max_rounds == self.max_rounds,
            result.gate_threshold == threshold,
    {
        ReconciliationClient {
            max_sketch_capacity: self.max_sketch_capacity,
            max_rounds: self.max_rounds,
            gate_threshold: threshold,
        }
    }

    /// Disables the delta cutoff entirely, allowing set reconciliation to proceed
    /// for arbitrarily large set differences.
    #[must_use]
    pub fn allow_unlimited_delta(self) -> (result: Self)
        ensures
            result.max_sketch_capacity == self.max_sketch_capacity,
            result.max_rounds == self.max_rounds,
            result.gate_threshold is None,
    {
        self.with_gate_threshold(None)
    }

    /// Returns the maximum allowed rounds.
    #[must_use]
    pub fn max_rounds(self) -> (result: usize)
        ensures
            result == self.max_rounds,
    {
        self.max_rounds
    }

    /// Returns the delta cutoff, if active.
    #[must_use]
    pub fn gate_threshold(self) -> (result: Option<u64>)
        ensures
            result == self.gate_threshold,
    {
        self.gate_threshold
    }

    /// Selects the next protocol action from local and remote level-0 state.
    ///
    /// `concurrency_headroom` accounts for events expected to arrive during
    /// the exchange. Capacity is one and a half times the estimated difference,
    /// rounded up, plus four. Capacities above one sketch are spread over
    /// buckets so that the exchange localizes the difference.
    #[must_use]
    pub fn select_action(
        self,
        local: &ResidentKernel,
        remote: RemoteDigest,
        concurrency_headroom: usize,
    ) -> (action: ClientAction)
        ensures
            selection(self, *local, remote, concurrency_headroom, action),
    {
        if !remote.frame_matches || remote.has_unknown_extremity {
            return ClientAction::ExtremityDiff;
        }
        let local_count: u64 = local.accumulator.count;
        if local.accumulator.digest == remote.digest && local_count == remote.known_event_count {
            return ClientAction::Synchronized;
        }
        let difference: u64 = if local_count < remote.known_event_count {
            remote.known_event_count - local_count
        } else {
            local_count - remote.known_event_count
        };
        let estimate: StrataEstimate = match super::triage::estimate_strata(
            &local.strata,
            &remote.strata,
        ) {
            Ok(estimate) => estimate,
            Err(_) => return ClientAction::ExtremityDiff,
        };
        let estimated_delta: u64 = if estimate.delta < difference {
            difference
        } else {
            estimate.delta
        };
        action_for_estimate(self.gate_threshold, estimated_delta, concurrency_headroom)
    }

    /// Builds the requester's unbucketed sketch over the negotiated frame.
    ///
    /// # Errors
    /// Returns an error for an invalid capacity or a zero short identifier.
    pub fn build_sketch(self, capacity: usize, hashes: &[ElementHash]) -> (result: Result<
        SyndromeSketch,
        AlgebraicError,
    >)
        ensures
            match result {
                Ok(sketch) => {
                    &&& valid_capacity(capacity)
                    &&& capacity <= self.max_sketch_capacity
                    &&& sketch.coordinates@.len() == capacity
                    &&& !short_ids(hashes@).contains(0)
                    &&& sketch_of(short_ids(hashes@), sketch.coordinates@)
                },
                Err(error) => if valid_capacity(capacity) && capacity <= self.max_sketch_capacity {
                    error == AlgebraicError::ZeroShortIdentifier && short_ids(hashes@).contains(0)
                } else {
                    error == AlgebraicError::InvalidSketchCapacity
                },
            },
    {
        if capacity == 0 || capacity > self.max_sketch_capacity {
            return Err(AlgebraicError::InvalidSketchCapacity);
        }
        let mut sketch: SyndromeSketch = match SyndromeSketch::new(capacity) {
            Ok(sketch) => sketch,
            Err(error) => return Err(error),
        };
        let ghost ids = short_ids(hashes@);
        let mut index: usize = 0;
        proof {
            assert(ids.take(0) =~= Seq::<u64>::empty());
        }
        while index < hashes.len()
            invariant
                index <= hashes.len(),
                ids == short_ids(hashes@),
                sketch.coordinates@.len() == capacity,
                valid_capacity(capacity),
                capacity <= self.max_sketch_capacity,
                forall|i: int| 0 <= i < index ==> ids[i] != 0,
                sketch_of(ids.take(index as int), sketch.coordinates@),
            decreases hashes.len() - index,
        {
            let ghost before = sketch.coordinates@;
            match sketch.toggle(hashes[index].h64) {
                Ok(_) => {},
                Err(error) => {
                    proof {
                        assert(ids[index as int] == 0);
                    }
                    return Err(error);
                },
            }
            proof {
                toggle_extends(ids.take(index as int), before, ids[index as int]);
                assert(ids.take(index + 1) =~= ids.take(index as int).push(ids[index as int]));
            }
            index = index + 1;
        }
        proof {
            assert(ids.take(index as int) =~= ids);
        }
        Ok(sketch)
    }
}

/// The short identifiers of a list of hashes.
pub open spec fn short_ids(hashes: Seq<ElementHash>) -> Seq<u64> {
    Seq::new(hashes.len(), |i: int| hashes[i].h64)
}

/// One and a half times the estimate, rounded up, plus four and a headroom,
/// capped at the largest count.
fn provision(estimate: u64, headroom: usize) -> (target: usize)
    ensures
        target == target_capacity(estimate as nat, headroom as nat),
{
    let value: u128 = estimate as u128 + (estimate / 2) as u128 + (estimate % 2) as u128 + 4
        + headroom as u128;
    proof {
        assert(estimate / 2 + estimate % 2 == (estimate + 1) / 2);
    }
    if value > usize::MAX as u128 {
        usize::MAX
    } else {
        value as usize
    }
}

/// The action for an estimated difference.
pub fn action_for_estimate(gate: Option<u64>, estimate: u64, headroom: usize) -> (action:
    ClientAction)
    ensures
        estimated_action(gate, estimate as nat, headroom as nat, action),
{
    if let Some(threshold) = gate {
        if estimate > threshold {
            return ClientAction::ExtremityDiff;
        }
    }
    let target: usize = provision(estimate, headroom);
    let mut depth: u8 = 0;
    let mut buckets: usize = 1;
    proof {
        lemma2_to64();
    }
    while buckets * 32 < target && depth < 6
        invariant
            depth <= 6,
            buckets <= 64,
            buckets == pow2(depth as nat),
            bucket_depth(target as nat, 0) == bucket_depth(target as nat, depth as nat),
        decreases 6 - depth,
    {
        proof {
            lemma2_to64();
            lemma_pow2_unfold((depth + 1) as nat);
        }
        depth = depth + 1;
        buckets = buckets * 2;
    }
    proof {
        lemma2_to64();
        lemma_pow2_pos(depth as nat);
    }
    let quotient: usize = target / buckets;
    let rounded: usize = if target % buckets == 0 {
        quotient
    } else {
        proof {
            assert(target / buckets < usize::MAX) by (nonlinear_arith)
                requires
                    buckets >= 1,
                    target <= usize::MAX,
                    target % buckets != 0,
            ;
        }
        quotient + 1
    };
    proof {
        ceiling_division(target as nat, buckets as nat);
    }
    let per_bucket: usize = if rounded < 4 {
        4
    } else if rounded > MAX_BUCKET_SKETCH_CAPACITY {
        MAX_BUCKET_SKETCH_CAPACITY
    } else {
        rounded
    };
    let mut requests: Vec<BucketRequest> = Vec::new();
    let mut prefix: u32 = 0;
    while (prefix as usize) < buckets
        invariant
            prefix <= buckets <= 64,
            requests.len() == prefix,
            forall|i: int|
                0 <= i < prefix ==> #[trigger] requests@[i] == (BucketRequest {
                    depth,
                    prefix: i as u32,
                    capacity: per_bucket,
                }),
        decreases buckets - prefix,
    {
        requests.push(BucketRequest { depth, prefix, capacity: per_bucket });
        prefix = prefix + 1;
    }
    proof {
        assert(requests@ =~= uniform_requests(depth as nat, per_bucket as nat));
    }
    ClientAction::BucketSketches { requests, accumulated_roots: Vec::new() }
}

proof fn ceiling_division(a: nat, b: nat)
    requires
        b >= 1,
    ensures
        (a + b - 1) as nat / b == if a % b == 0 {
            a / b
        } else {
            a / b + 1
        },
{
    let q = a / b;
    let r = a % b;
    vstd::arithmetic::div_mod::lemma_fundamental_div_mod(a as int, b as int);
    vstd::arithmetic::div_mod::lemma_mod_bound(a as int, b as int);
    assert(b * q == q * b) by (nonlinear_arith);
    if r == 0 {
        vstd::arithmetic::div_mod::lemma_fundamental_div_mod_converse(
            a + b - 1,
            b as int,
            q as int,
            b - 1,
        );
    } else {
        assert(a + b - 1 == (q + 1) * b + (r - 1)) by (nonlinear_arith)
            requires
                a == b * q + r,
        ;
        vstd::arithmetic::div_mod::lemma_fundamental_div_mod_converse(
            a + b - 1,
            b as int,
            (q + 1) as int,
            r - 1,
        );
    }
}

/// The requests of a selected action are always valid.
pub proof fn selected_requests_valid(target: nat)
    ensures
        ({
            let depth = bucket_depth(target, 0);
            valid_requests(uniform_requests(depth, bucket_capacity(target, depth)))
        }),
{
    let depth = bucket_depth(target, 0);
    let capacity = bucket_capacity(target, depth);
    let requests = uniform_requests(depth, capacity);
    bucket_depth_bound(target, 0);
    lemma2_to64();
    assert(pow2(depth) <= 64);
    assert forall|k: int| 0 <= k < requests.len() implies #[trigger] request_problem(
        requests,
        k,
    ) is None by {
        uniform_total(depth, capacity, (k + 1) as nat);
        assert((k + 1) * capacity <= 64 * 32) by (nonlinear_arith)
            requires
                0 <= k < 64,
                0 <= capacity <= 32,
        ;
        if k > 0 {
            let w = range_width(requests[k]);
            assert(k * w == (k - 1) * w + w) by (nonlinear_arith);
        }
    }
}

proof fn bucket_depth_bound(target: nat, depth: nat)
    requires
        depth <= 6,
    ensures
        depth <= bucket_depth(target, depth) <= 6,
    decreases 6 - depth,
{
    if depth < 6 && 32 * pow2(depth) < target {
        bucket_depth_bound(target, depth + 1);
    }
}

proof fn uniform_total(depth: nat, capacity: nat, n: nat)
    requires
        n <= pow2(depth),
        capacity <= usize::MAX,
    ensures
        total_capacity(uniform_requests(depth, capacity), n) == n * capacity,
    decreases n,
{
    if n == 0 {
        assert(0 * capacity == 0) by (nonlinear_arith);
    } else {
        uniform_total(depth, capacity, (n - 1) as nat);
        assert(n * capacity == (n - 1) * capacity + capacity) by (nonlinear_arith);
    }
}

/// The roots of the first `n` decoded buckets, in order.
pub open spec fn decoded_roots(successes: Seq<BucketDecodeSuccess>, n: nat) -> Seq<u64>
    decreases n,
{
    if n == 0 {
        Seq::empty()
    } else {
        decoded_roots(successes, (n - 1) as nat) + successes[n - 1].roots@
    }
}

/// The first request for a bucket among those from `from` on.
pub open spec fn request_for(
    requests: Seq<BucketRequest>,
    bucket: (u8, u32),
    from: int,
) -> Option<BucketRequest>
    decreases requests.len() - from,
{
    if from >= requests.len() {
        None
    } else if requests[from].prefix == bucket.1 && requests[from].depth == bucket.0 {
        Some(requests[from])
    } else {
        request_for(requests, bucket, from + 1)
    }
}

/// The share of the unaccounted elements that each failed bucket is given.
pub open spec fn bucket_share(estimate: Option<u64>, resolved: nat, failed: nat) -> nat {
    match estimate {
        Some(total) => if total as nat <= resolved {
            0
        } else {
            (total as nat - resolved) as nat / failed
        },
        None => 0,
    }
}

/// The capacity for a target count, within bounds, if it can be counted.
pub open spec fn retry_capacity(target: nat, floor: nat) -> Option<nat> {
    if provisioned(target) > usize::MAX {
        None
    } else {
        Some(clamped(provisioned(target), floor, 32))
    }
}

/// A child bucket's prefix.
pub open spec fn child_prefix(prefix: u32, child: nat) -> u32 {
    ((2 * prefix as nat) % 0x1_0000_0000 + child) as u32
}

/// The requests that replace a failed one: the same bucket with a larger
/// capacity, or both halves of a bucket that is at the maximum. None where the
/// bucket cannot be split any more or the capacity cannot be counted.
pub open spec fn retry_requests(previous: BucketRequest, share: nat) -> Option<Seq<BucketRequest>> {
    if previous.capacity < MAX_BUCKET_SKETCH_CAPACITY {
        let floor = previous.capacity as nat + 1;
        match retry_capacity(greatest(share, floor), floor) {
            None => None,
            Some(capacity) => Some(
                seq![
                    BucketRequest {
                        depth: previous.depth,
                        prefix: previous.prefix,
                        capacity: capacity as usize,
                    },
                ],
            ),
        }
    } else if previous.depth >= 31 {
        None
    } else {
        match retry_capacity(greatest(share / 2, 4), 4) {
            None => None,
            Some(capacity) => {
                let depth = (previous.depth + 1) as u8;
                Some(
                    seq![
                        BucketRequest {
                            depth,
                            prefix: child_prefix(previous.prefix, 0),
                            capacity: capacity as usize,
                        },
                        BucketRequest {
                            depth,
                            prefix: child_prefix(previous.prefix, 1),
                            capacity: capacity as usize,
                        },
                    ],
                )
            },
        }
    }
}

/// The requests that replace the first `n` failed buckets, while every bucket
/// was requested and the capacities stay within the limit.
pub open spec fn retry_plan(
    failed: Seq<(u8, u32)>,
    previous: Seq<BucketRequest>,
    share: nat,
    limit: nat,
    n: nat,
) -> Option<Seq<BucketRequest>>
    decreases n,
{
    if n == 0 {
        Some(Seq::empty())
    } else {
        match retry_plan(failed, previous, share, limit, (n - 1) as nat) {
            None => None,
            Some(plan) => match request_for(previous, failed[n - 1], 0) {
                None => None,
                Some(request) => match retry_requests(request, share) {
                    None => None,
                    Some(retries) => {
                        let all = plan + retries;
                        if total_capacity(all, all.len()) <= limit {
                            Some(all)
                        } else {
                            None
                        }
                    },
                },
            },
        }
    }
}

/// The action that a decoded batch leads to.
pub open spec fn transition(
    successes: Seq<BucketDecodeSuccess>,
    failed: Seq<(u8, u32)>,
    previous: Seq<BucketRequest>,
    accumulated: Seq<u64>,
    estimate: Option<u64>,
    aggregate_cap: usize,
    action: ClientAction,
) -> bool {
    let roots = accumulated + decoded_roots(successes, successes.len());
    if failed.len() == 0 {
        action matches ClientAction::ResolveRoots { roots: resolved } && resolved@ == roots
    } else {
        let share = bucket_share(estimate, roots.len(), failed.len());
        let limit = least(aggregate_cap as nat, MAX_BUCKETED_SKETCH_CAPACITY as nat);
        match retry_plan(failed, previous, share, limit, failed.len()) {
            None => action == ClientAction::ExtremityDiff,
            Some(plan) => action matches ClientAction::BucketSketches {
                requests,
                accumulated_roots,
            } && requests@ == plan && accumulated_roots@ == roots,
        }
    }
}

/// Finds the first request for a bucket.
fn find_request(requests: &[BucketRequest], depth: u8, prefix: u32) -> (found: Option<
    BucketRequest,
>)
    ensures
        found == request_for(requests@, (depth, prefix), 0),
{
    let mut index: usize = 0;
    while index < requests.len()
        invariant
            index <= requests.len(),
            request_for(requests@, (depth, prefix), 0) == request_for(
                requests@,
                (depth, prefix),
                index as int,
            ),
        decreases requests.len() - index,
    {
        if requests[index].prefix == prefix && requests[index].depth == depth {
            return Some(requests[index]);
        }
        index = index + 1;
    }
    None
}

/// The capacity for a target count, within bounds, if it can be counted.
fn compute_retry_capacity(target: u64, floor: usize) -> (capacity: Option<usize>)
    requires
        floor <= MAX_BUCKET_SKETCH_CAPACITY,
    ensures
        match capacity {
            Some(value) => retry_capacity(target as nat, floor as nat) == Some(value as nat),
            None => retry_capacity(target as nat, floor as nat) is None,
        },
{
    let value: u128 = target as u128 + (target / 2) as u128 + (target % 2) as u128 + 4;
    proof {
        assert(target / 2 + target % 2 == (target + 1) / 2);
    }
    if value > usize::MAX as u128 {
        return None;
    }
    let wanted: usize = value as usize;
    if wanted < floor {
        Some(floor)
    } else if wanted > MAX_BUCKET_SKETCH_CAPACITY {
        Some(MAX_BUCKET_SKETCH_CAPACITY)
    } else {
        Some(wanted)
    }
}

proof fn child_prefix_bits(prefix: u32)
    by (bit_vector)
    ensures
        ((prefix << 1u32) | 0u32) as u64 == (prefix as u64 * 2) % 0x1_0000_0000,
        ((prefix << 1u32) | 1u32) as u64 == (prefix as u64 * 2) % 0x1_0000_0000 + 1,
{
}

/// The requests that replace a failed one.
fn compute_retries(previous: BucketRequest, share: u64) -> (retries: Option<Vec<BucketRequest>>)
    ensures
        match retries {
            Some(requests) => retry_requests(previous, share as nat) == Some(requests@),
            None => retry_requests(previous, share as nat) is None,
        },
        retries matches Some(requests) ==> requests.len() <= 2 && forall|i: int|
            0 <= i < requests.len() ==> (#[trigger] requests@[i]).capacity <= 32,
{
    let mut requests: Vec<BucketRequest> = Vec::new();
    if previous.capacity < MAX_BUCKET_SKETCH_CAPACITY {
        let floor: usize = previous.capacity + 1;
        let target: u64 = if share < floor as u64 {
            floor as u64
        } else {
            share
        };
        let capacity: usize = match compute_retry_capacity(target, floor) {
            Some(capacity) => capacity,
            None => return None,
        };
        requests.push(
            BucketRequest { depth: previous.depth, prefix: previous.prefix, capacity },
        );
        proof {
            assert(retry_requests(previous, share as nat)->Some_0 =~= requests@);
        }
    } else {
        if previous.depth >= 31 {
            return None;
        }
        let half: u64 = share / 2;
        let target: u64 = if half < 4 {
            4
        } else {
            half
        };
        let capacity: usize = match compute_retry_capacity(target, 4) {
            Some(capacity) => capacity,
            None => return None,
        };
        let depth: u8 = previous.depth + 1;
        proof {
            child_prefix_bits(previous.prefix);
        }
        requests.push(BucketRequest { depth, prefix: (previous.prefix << 1u32) | 0u32, capacity });
        requests.push(BucketRequest { depth, prefix: (previous.prefix << 1u32) | 1u32, capacity });
        proof {
            assert(retry_requests(previous, share as nat)->Some_0 =~= requests@);
        }
    }
    Some(requests)
}

/// The capacities of a list with another behind it add up.
pub proof fn total_capacity_concat(a: Seq<BucketRequest>, b: Seq<BucketRequest>, n: nat)
    requires
        n <= b.len(),
    ensures
        total_capacity(a + b, a.len() + n) == total_capacity(a, a.len()) + total_capacity(b, n),
    decreases n,
{
    if n == 0 {
        total_capacity_prefix(a, b, a.len());
    } else {
        total_capacity_concat(a, b, (n - 1) as nat);
    }
}

proof fn total_capacity_prefix(a: Seq<BucketRequest>, b: Seq<BucketRequest>, n: nat)
    requires
        n <= a.len(),
    ensures
        total_capacity(a + b, n) == total_capacity(a, n),
    decreases n,
{
    if n > 0 {
        total_capacity_prefix(a, b, (n - 1) as nat);
    }
}

/// Once a bucket cannot be retried, the plan fails.
pub proof fn plan_stays_failed(
    failed: Seq<(u8, u32)>,
    previous: Seq<BucketRequest>,
    share: nat,
    limit: nat,
    m: nat,
    n: nat,
)
    requires
        m <= n,
        retry_plan(failed, previous, share, limit, m) is None,
    ensures
        retry_plan(failed, previous, share, limit, n) is None,
    decreases n,
{
    if m < n {
        plan_stays_failed(failed, previous, share, limit, m, (n - 1) as nat);
    }
}

/// Appends the roots of every decoded bucket.
fn collect_roots(accumulated: &mut Vec<u64>, successes: &Vec<BucketDecodeSuccess>)
    ensures
        final(accumulated)@ == old(accumulated)@ + decoded_roots(successes@, successes@.len()),
{
    let ghost start = accumulated@;
    let mut index: usize = 0;
    proof {
        assert(start + decoded_roots(successes@, 0) =~= start);
    }
    while index < successes.len()
        invariant
            index <= successes.len(),
            accumulated@ == start + decoded_roots(successes@, index as nat),
        decreases successes.len() - index,
    {
        let roots: &Vec<u64> = &successes[index].roots;
        let ghost before = accumulated@;
        let mut place: usize = 0;
        while place < roots.len()
            invariant
                place <= roots.len(),
                accumulated@ =~= before + roots@.take(place as int),
            decreases roots.len() - place,
        {
            accumulated.push(roots[place]);
            place = place + 1;
        }
        proof {
            assert(roots@.take(place as int) =~= roots@);
            assert(accumulated@ =~= start + decoded_roots(successes@, (index + 1) as nat));
        }
        index = index + 1;
    }
}

impl ReconciliationClient {
    /// Advances the bucket-decoding exchange without discarding prior roots.
    ///
    /// Normal decode failures are retried at a strictly larger capacity, or
    /// split in two at the maximum. A missing prior request, a bucket that
    /// cannot be split, or an aggregate retry above the cap falls back to
    /// bounded extremity discovery.
    #[must_use]
    pub fn transition_bucket_batch(
        batch: BucketDecodeBatch,
        previous_requests: &[BucketRequest],
        accumulated_roots: Vec<u64>,
        global_estimate: Option<u64>,
        aggregate_cap: usize,
    ) -> (action: ClientAction)
        ensures
            transition(
                batch.successful_buckets@,
                batch.failed_buckets@,
                previous_requests@,
                accumulated_roots@,
                global_estimate,
                aggregate_cap,
                action,
            ),
    {
        let mut roots: Vec<u64> = accumulated_roots;
        collect_roots(&mut roots, &batch.successful_buckets);
        let failed: &Vec<(u8, u32)> = &batch.failed_buckets;
        if failed.len() == 0 {
            return ClientAction::ResolveRoots { roots };
        }
        let resolved: u64 = roots.len() as u64;
        let unaccounted: u64 = match global_estimate {
            Some(total) => if total <= resolved {
                0
            } else {
                total - resolved
            },
            None => 0,
        };
        let failed_count: u64 = failed.len() as u64;
        let share: u64 = unaccounted / failed_count;
        let limit: usize = if aggregate_cap < MAX_BUCKETED_SKETCH_CAPACITY {
            aggregate_cap
        } else {
            MAX_BUCKETED_SKETCH_CAPACITY
        };
        proof {
            assert(share == bucket_share(global_estimate, roots@.len(), failed@.len())) by {
                assert(0u64 / failed_count == 0) by (nonlinear_arith)
                    requires
                        failed_count > 0,
                ;
            }
        }
        let mut total: usize = 0;
        let mut requests: Vec<BucketRequest> = Vec::new();
        let mut index: usize = 0;
        while index < failed.len()
            invariant
                index <= failed.len(),
                failed.len() > 0,
                limit <= MAX_BUCKETED_SKETCH_CAPACITY,
                limit == least(aggregate_cap as nat, MAX_BUCKETED_SKETCH_CAPACITY as nat),
                share == bucket_share(global_estimate, roots@.len(), failed@.len()),
                retry_plan(
                    failed@,
                    previous_requests@,
                    share as nat,
                    limit as nat,
                    index as nat,
                ) == Some(requests@),
                total == total_capacity(requests@, requests@.len()),
                total <= limit,
                roots@ == accumulated_roots@ + decoded_roots(
                    batch.successful_buckets@,
                    batch.successful_buckets@.len(),
                ),
                failed@ == batch.failed_buckets@,
            decreases failed.len() - index,
        {
            let (depth, prefix) = failed[index];
            let ghost before = requests@;
            let previous: BucketRequest = match find_request(previous_requests, depth, prefix) {
                Some(previous) => previous,
                None => {
                    proof {
                        plan_stays_failed(
                            failed@,
                            previous_requests@,
                            share as nat,
                            limit as nat,
                            (index + 1) as nat,
                            failed@.len(),
                        );
                    }
                    return ClientAction::ExtremityDiff;
                },
            };
            let retries: Vec<BucketRequest> = match compute_retries(previous, share) {
                Some(retries) => retries,
                None => {
                    proof {
                        plan_stays_failed(
                            failed@,
                            previous_requests@,
                            share as nat,
                            limit as nat,
                            (index + 1) as nat,
                            failed@.len(),
                        );
                    }
                    return ClientAction::ExtremityDiff;
                },
            };
            let mut place: usize = 0;
            proof {
                assert(retries@.take(0) =~= Seq::<BucketRequest>::empty());
                assert(before + retries@.take(0) =~= before);
            }
            while place < retries.len()
                invariant
                    place <= retries.len() <= 2,
                    forall|i: int|
                        0 <= i < retries.len() ==> (#[trigger] retries@[i]).capacity <= 32,
                    requests@ =~= before + retries@.take(place as int),
                    total == total_capacity(requests@, requests@.len()),
                    total <= limit + 32 * place,
                    limit <= MAX_BUCKETED_SKETCH_CAPACITY,
                decreases retries.len() - place,
            {
                let request: BucketRequest = retries[place];
                proof {
                    total_capacity_concat(requests@, seq![request], 1);
                    assert(total_capacity(seq![request], 1) == request.capacity) by {
                        reveal_with_fuel(total_capacity, 2);
                    }
                    assert(requests@.push(request) =~= requests@ + seq![request]);
                    assert(retries@.take(place + 1) =~= retries@.take(place as int).push(request));
                }
                total = total + request.capacity;
                requests.push(request);
                place = place + 1;
            }
            proof {
                assert(retries@.take(place as int) =~= retries@);
            }
            if total > limit {
                proof {
                    plan_stays_failed(
                        failed@,
                        previous_requests@,
                        share as nat,
                        limit as nat,
                        (index + 1) as nat,
                        failed@.len(),
                    );
                }
                return ClientAction::ExtremityDiff;
            }
            index = index + 1;
        }
        ClientAction::BucketSketches { requests, accumulated_roots: roots }
    }

    /// Verifies the global 128-bit residual after roots are resolved to hashes.
    ///
    /// # Errors
    /// Returns [`AlgebraicError::DecodeFailure`] when the supplied roots do not
    /// reproduce the residual.
    pub fn verify_global_residual(
        expected_residual: u128,
        local_roots: &[u128],
        remote_roots: &[u128],
    ) -> (result: Result<(), AlgebraicError>)
        ensures
            match result {
                Ok(_) => xor_all(local_roots@ + remote_roots@) == expected_residual,
                Err(error) => error == AlgebraicError::DecodeFailure && xor_all(
                    local_roots@ + remote_roots@,
                ) != expected_residual,
            },
    {
        let ghost all = local_roots@ + remote_roots@;
        let mut actual: u128 = 0;
        let mut index: usize = 0;
        proof {
            assert(all.take(0) =~= Seq::<u128>::empty());
        }
        while index < local_roots.len()
            invariant
                index <= local_roots.len(),
                all == local_roots@ + remote_roots@,
                actual == xor_all(all.take(index as int)),
            decreases local_roots.len() - index,
        {
            proof {
                assert(all.take(index + 1).drop_last() =~= all.take(index as int));
            }
            actual = actual ^ local_roots[index];
            index = index + 1;
        }
        let mut place: usize = 0;
        while place < remote_roots.len()
            invariant
                place <= remote_roots.len(),
                all == local_roots@ + remote_roots@,
                actual == xor_all(all.take(local_roots.len() + place)),
            decreases remote_roots.len() - place,
        {
            proof {
                assert(all.take(local_roots.len() + place + 1).drop_last() =~= all.take(
                    local_roots.len() + place,
                ));
            }
            actual = actual ^ remote_roots[place];
            place = place + 1;
        }
        proof {
            assert(all.take(local_roots.len() + place) =~= all);
        }
        if actual == expected_residual {
            Ok(())
        } else {
            Err(AlgebraicError::DecodeFailure)
        }
    }
}

/// The exclusive or of all words.
pub open spec fn xor_all(words: Seq<u128>) -> u128
    decreases words.len(),
{
    if words.len() == 0 {
        0
    } else {
        xor_all(words.drop_last()) ^ words.last()
    }
}

/// A bucket below the maximum is retried at a strictly larger capacity, and one
/// at the maximum in its two halves.
pub proof fn retries_make_progress(previous: BucketRequest, share: nat)
    requires
        valid_bucket(previous),
    ensures
        retry_requests(previous, share) matches Some(retries) ==> if previous.capacity
            < MAX_BUCKET_SKETCH_CAPACITY {
            &&& retries.len() == 1
            &&& retries[0].depth == previous.depth
            &&& retries[0].prefix == previous.prefix
            &&& previous.capacity < retries[0].capacity <= MAX_BUCKET_SKETCH_CAPACITY
        } else {
            &&& retries.len() == 2
            &&& retries[0].depth == previous.depth + 1
            &&& retries[1].depth == previous.depth + 1
            &&& retries[0].prefix == 2 * previous.prefix
            &&& retries[1].prefix == 2 * previous.prefix + 1
            &&& 4 <= retries[0].capacity == retries[1].capacity <= MAX_BUCKET_SKETCH_CAPACITY
        },
{
    lemma2_to64();
    if previous.depth < 31 {
        vstd::arithmetic::power2::lemma_pow2_strictly_increases(previous.depth as nat, 31);
    }
}

} // verus!
