//! What a bucket is in bits, and what building sketches keeps to.

use vstd::prelude::*;
use vstd::arithmetic::power2::{lemma_pow2_pos, pow2};
use vstd::arithmetic::div_mod::lemma_small_mod;
use vstd::bits::lemma_u64_shr_is_div;
use crate::merge_laws::tally;
use super::algebraic::{AlgebraicError, SyndromeSketch};
use super::pinsketch::{ascending, sketch_of};
use super::server::{
    bucket_positions, build_leaves, build_stop, built, covers, in_bucket, is_bucket,
    is_bucket_sketch, is_leaf_sketch, leaf_ranges, leaf_stop, leaf_work, leaves_stop,
    positions_hold_bucket, range_stop, request_is_covered, request_range, settled, too_deep,
    zero_requested, BuildStop, SketchPolicy, SketchResult,
};
use super::triage::BucketRequest;

verus! {

/// The leading bits of the identifier are the prefix.
pub open spec fn leads_with(x: u64, depth: u8, prefix: u32) -> bool {
    depth == 0 && prefix == 0 || 0 < depth <= 64 && x >> ((64 - depth) as u64) == prefix as u64
}

/// An identifier lies in the bucket of its leading bits.
pub proof fn bucket_by_bits(x: u64, depth: u8, prefix: u32)
    requires
        depth <= 64,
        (prefix as nat) < pow2(depth as nat),
    ensures
        in_bucket(x, depth, prefix) <==> leads_with(x, depth, prefix),
{
    lemma_small_mod(prefix as nat, pow2(depth as nat));
    if depth == 0 {
        vstd::arithmetic::power2::lemma2_to64();
        vstd::arithmetic::power2::lemma2_to64_rest();
        assert(x as nat / pow2(64) == 0) by (nonlinear_arith)
            requires
                x as nat <= u64::MAX,
                pow2(64) == 0x1_0000_0000_0000_0000,
        ;
    } else {
        lemma_u64_shr_is_div(x, (64 - depth) as u64);
    }
}

/// The part of an index that a bucket covers is the identifiers with its leading bits,
/// all of them and no others, one behind the other.
pub proof fn slice_by_bits(sorted: Seq<u64>, depth: u8, prefix: u32, slice: Seq<u64>)
    requires
        depth <= 64,
        (prefix as nat) < pow2(depth as nat),
        is_bucket(sorted, depth, prefix, slice),
    ensures
        exists|start: int|
            {
                &&& 0 <= start && start + slice.len() <= sorted.len()
                &&& slice == #[trigger] sorted.subrange(start, start + slice.len())
                &&& forall|i: int|
                    0 <= i < sorted.len() ==> (start <= i < start + slice.len() <==> leads_with(
                        #[trigger] sorted[i],
                        depth,
                        prefix,
                    ))
            },
{
    let (start, end) = choose|start: int, end: int| #[trigger]
        bucket_positions(sorted, depth, prefix, start, end) && slice == sorted.subrange(
            start,
            end,
        );
    assert(slice.len() == end - start);
    assert forall|i: int| 0 <= i < sorted.len() implies (start <= i < start + slice.len()
        <==> leads_with(#[trigger] sorted[i], depth, prefix)) by {
        positions_hold_bucket(sorted, depth, prefix, start, end, i);
        bucket_by_bits(sorted[i], depth, prefix);
    }
    assert(slice == sorted.subrange(start, start + slice.len()));
}

/// How many identifiers of the index a request's bucket holds.
pub open spec fn bucket_size(sorted: Seq<u64>, request: BucketRequest) -> nat {
    tally(|i: int| in_bucket(sorted[i], request.depth, request.prefix), sorted.len())
}

/// How many identifiers the buckets of the first requests hold, all together.
pub open spec fn asked(sorted: Seq<u64>, requests: Seq<BucketRequest>, n: nat) -> nat
    decreases n,
{
    if n == 0 {
        0
    } else {
        asked(sorted, requests, (n - 1) as nat) + bucket_size(sorted, requests[n - 1])
    }
}

proof fn interval_tally(kind: spec_fn(int) -> bool, start: int, end: int, n: nat)
    requires
        0 <= start <= end,
        forall|i: int| 0 <= i < n ==> (start <= i < end <==> #[trigger] kind(i)),
    ensures
        tally(kind, n) == if n <= start {
            0
        } else if n <= end {
            n - start
        } else {
            end - start
        },
    decreases n,
{
    if n > 0 {
        interval_tally(kind, start, end, (n - 1) as nat);
        assert(kind(n - 1) <==> start <= n - 1 < end);
    }
}

proof fn size_of_range(sorted: Seq<u64>, request: BucketRequest)
    requires
        ascending(sorted),
        request.depth <= 64,
    ensures
        ({
            let range = request_range(sorted, request);
            &&& 0 <= range.0 <= range.1 <= sorted.len()
            &&& bucket_size(sorted, request) == range.1 - range.0
            &&& forall|i: int|
                0 <= i < sorted.len() ==> (range.0 <= i < range.1 <==> in_bucket(
                    #[trigger] sorted[i],
                    request.depth,
                    request.prefix,
                ))
        }),
{
    request_is_covered(sorted, request);
    let range = request_range(sorted, request);
    assert forall|i: int| 0 <= i < sorted.len() implies (range.0 <= i < range.1 <==> in_bucket(
        #[trigger] sorted[i],
        request.depth,
        request.prefix,
    )) by {
        positions_hold_bucket(
            sorted,
            request.depth,
            request.prefix,
            range.0,
            range.1,
            i,
        );
    }
    interval_tally(
        |i: int| in_bucket(sorted[i], request.depth, request.prefix),
        range.0,
        range.1,
        sorted.len(),
    );
}

/// The leaves of a covered range have its size, and none is empty backwards.
proof fn covered_work(leaves: Seq<(int, int, usize)>, start: int, end: int)
    requires
        covers(leaves, start, end),
    ensures
        leaf_work(leaves) == end - start,
    decreases leaves.len(),
{
    if leaves.len() > 1 {
        let rest = leaves.drop_last();
        assert(leaves[leaves.len() - 2].1 == leaves[leaves.len() - 1].0);
        assert(rest.last() == leaves[leaves.len() - 2]);
        assert forall|i: int, j: int|
            0 <= i && j == i + 1 && j < rest.len() implies (#[trigger] rest[i]).1 == (
        #[trigger] rest[j]).0 by {
            assert(leaves[i].1 == leaves[j].0);
        }
        covered_work(rest, start, leaves[leaves.len() - 1].0);
    } else {
        assert(leaf_work(leaves.drop_last()) == 0);
    }
}

proof fn leaves_stop_facts(
    sorted: Seq<u64>,
    leaves: Seq<(int, int, usize)>,
    work: int,
    allowance: usize,
)
    requires
        forall|i: int| 0 <= i < leaves.len() ==> (#[trigger] leaves[i]).0 <= leaves[i].1,
    ensures
        match leaves_stop(sorted, leaves, work, allowance) {
            None => {
                &&& leaves.len() > 0 && allowance < usize::MAX ==> work + leaf_work(leaves)
                    <= allowance
                &&& forall|i: int|
                    0 <= i < leaves.len() ==> 1 <= (#[trigger] leaves[i]).2 <= 32
                        && !sorted.subrange(leaves[i].0, leaves[i].1).contains(0)
            },
            Some(BuildStop::Limit) => {
                &&& allowance < usize::MAX
                &&& work + leaf_work(leaves) > allowance
            },
            Some(BuildStop::Fault(error)) => exists|i: int|
                {
                    let leaf = #[trigger] leaves[i];
                    &&& 0 <= i < leaves.len()
                    &&& error == AlgebraicError::InvalidSketchCapacity && !(1 <= leaf.2 <= 32)
                        || error == AlgebraicError::ZeroShortIdentifier && sorted.subrange(
                        leaf.0,
                        leaf.1,
                    ).contains(0)
                },
        },
        leaf_work(leaves) >= 0,
    decreases leaves.len(),
{
    if leaves.len() > 0 {
        let first = leaves.first();
        let rest = leaves.drop_first();
        assert forall|i: int| 0 <= i < rest.len() implies (#[trigger] rest[i]).0 <= rest[i].1 by {
            assert(leaves[i + 1].0 <= leaves[i + 1].1);
        }
        assert(leaves[0].0 <= leaves[0].1);
        leaves_stop_facts(sorted, rest, work + (first.1 - first.0), allowance);
        work_first(leaves);
        match leaf_stop(sorted, first, work, allowance) {
            Some(BuildStop::Fault(error)) => {
                assert(leaves[0] == first);
            },
            Some(BuildStop::Limit) => {},
            None => {
                if let Some(BuildStop::Fault(error)) = leaves_stop(
                    sorted,
                    rest,
                    work + (first.1 - first.0),
                    allowance,
                ) {
                    let i = choose|i: int|
                        {
                            let leaf = #[trigger] rest[i];
                            &&& 0 <= i < rest.len()
                            &&& error == AlgebraicError::InvalidSketchCapacity && !(1 <= leaf.2
                                <= 32) || error == AlgebraicError::ZeroShortIdentifier
                                && sorted.subrange(leaf.0, leaf.1).contains(0)
                        };
                    assert(leaves[i + 1] == rest[i]);
                } else if leaves_stop(
                    sorted,
                    rest,
                    work + (first.1 - first.0),
                    allowance,
                ) is None {
                    assert forall|i: int| 0 <= i < leaves.len() implies 1 <= (
                    #[trigger] leaves[i]).2 <= 32 && !sorted.subrange(
                        leaves[i].0,
                        leaves[i].1,
                    ).contains(0) by {
                        if i > 0 {
                            assert(rest[i - 1] == leaves[i]);
                        }
                    }
                    if rest.len() == 0 {
                        assert(leaf_work(rest) == 0);
                    }
                }
            },
        }
    }
}

proof fn work_first(leaves: Seq<(int, int, usize)>)
    requires
        leaves.len() > 0,
    ensures
        leaf_work(leaves) == (leaves.first().1 - leaves.first().0) + leaf_work(
            leaves.drop_first(),
        ),
    decreases leaves.len(),
{
    if leaves.len() > 1 {
        let rest = leaves.drop_last();
        work_first(rest);
        assert(rest.drop_first() =~= leaves.drop_first().drop_last());
        assert(leaves.drop_first().last() == leaves.last());
    } else {
        assert(leaves.drop_last() =~= Seq::empty());
        assert(leaves.drop_first() =~= Seq::empty());
    }
}

/// A bucket whose size, capacity and contents let it be built.
pub open spec fn buildable(sorted: Seq<u64>, request: BucketRequest, policy: SketchPolicy) -> bool {
    &&& bucket_size(sorted, request) <= policy.hard_fallback_threshold
    &&& 1 <= request.capacity <= 32
    &&& !holds_zero(sorted, request)
}

/// The identifier zero lies in the bucket of a request.
pub open spec fn holds_zero(sorted: Seq<u64>, request: BucketRequest) -> bool {
    exists|i: int|
        0 <= i < sorted.len() && #[trigger] sorted[i] == 0 && in_bucket(
            sorted[i],
            request.depth,
            request.prefix,
        )
}

proof fn range_stop_facts(
    sorted: Seq<u64>,
    request: BucketRequest,
    work: int,
    policy: SketchPolicy,
)
    requires
        ascending(sorted),
        request.depth <= 64,
    ensures
        ({
            let range = request_range(sorted, request);
            let size = bucket_size(sorted, request);
            let allowance = policy.max_aggregate_work;
            match range_stop(
                sorted,
                range,
                request.depth,
                request.capacity,
                work,
                policy,
            ) {
                None => buildable(sorted, request, policy) && (allowance < usize::MAX ==> work
                    + size <= allowance),
                Some(BuildStop::Limit) => size > policy.hard_fallback_threshold || (allowance
                    < usize::MAX && work + size > allowance),
                Some(BuildStop::Fault(error)) => error == AlgebraicError::InvalidSketchCapacity
                    && !(1 <= request.capacity <= 32) || error
                    == AlgebraicError::ZeroShortIdentifier && holds_zero(sorted, request),
            }
        }),
{
    let range = request_range(sorted, request);
    let leaves = leaf_ranges(sorted, range.0, range.1, request.depth, request.capacity);
    request_is_covered(sorted, request);
    size_of_range(sorted, request);
    covered_work(leaves, range.0, range.1);
    assert forall|i: int| 0 <= i < leaves.len() implies (#[trigger] leaves[i]).0 <= leaves[i].1
        && range.0 <= leaves[i].0 && leaves[i].1 <= range.1 && leaves[i].2 == request.capacity by {
        assert(settled(sorted, leaves[i], request.capacity));
        leaf_inside(sorted, leaves, range.0, range.1, request.capacity, i);
    }
    leaves_stop_facts(sorted, leaves, work, policy.max_aggregate_work);
    match range_stop(sorted, range, request.depth, request.capacity, work, policy) {
        None => {
            assert(leaves[0].2 == request.capacity);
            if holds_zero(sorted, request) {
                let i = choose|i: int|
                    0 <= i < sorted.len() && #[trigger] sorted[i] == 0 && in_bucket(
                        sorted[i],
                        request.depth,
                        request.prefix,
                    );
                let j = leaf_around(sorted, leaves, range.0, range.1, request.capacity, i);
                let part = sorted.subrange(leaves[j].0, leaves[j].1);
                assert(part[i - leaves[j].0] == 0);
            }
        },
        Some(BuildStop::Fault(error)) => {
            let i = choose|i: int|
                {
                    let leaf = #[trigger] leaves[i];
                    &&& 0 <= i < leaves.len()
                    &&& error == AlgebraicError::InvalidSketchCapacity && !(1 <= leaf.2 <= 32)
                        || error == AlgebraicError::ZeroShortIdentifier && sorted.subrange(
                        leaf.0,
                        leaf.1,
                    ).contains(0)
                };
            assert(leaves[i].2 == request.capacity);
            let part = sorted.subrange(leaves[i].0, leaves[i].1);
            if part.contains(0) {
                let j = part.index_of(0);
                assert(sorted[leaves[i].0 + j] == 0);
            }
        },
        _ => {},
    }
}

proof fn leaf_inside(
    sorted: Seq<u64>,
    leaves: Seq<(int, int, usize)>,
    start: int,
    end: int,
    capacity: usize,
    i: int,
)
    requires
        covers(leaves, start, end),
        forall|i: int| 0 <= i < leaves.len() ==> settled(sorted, #[trigger] leaves[i], capacity),
        0 <= i < leaves.len(),
    ensures
        start <= leaves[i].0,
        leaves[i].1 <= end,
{
    before_inside(sorted, leaves, start, end, capacity, i);
    after_inside(sorted, leaves, start, end, capacity, i);
}

proof fn before_inside(
    sorted: Seq<u64>,
    leaves: Seq<(int, int, usize)>,
    start: int,
    end: int,
    capacity: usize,
    i: int,
)
    requires
        covers(leaves, start, end),
        forall|i: int| 0 <= i < leaves.len() ==> settled(sorted, #[trigger] leaves[i], capacity),
        0 <= i < leaves.len(),
    ensures
        start <= leaves[i].0,
    decreases i,
{
    if i > 0 {
        before_inside(sorted, leaves, start, end, capacity, i - 1);
        assert(settled(sorted, leaves[i - 1], capacity));
        assert(leaves[i - 1].1 == leaves[i].0);
    }
}

proof fn after_inside(
    sorted: Seq<u64>,
    leaves: Seq<(int, int, usize)>,
    start: int,
    end: int,
    capacity: usize,
    i: int,
)
    requires
        covers(leaves, start, end),
        forall|i: int| 0 <= i < leaves.len() ==> settled(sorted, #[trigger] leaves[i], capacity),
        0 <= i < leaves.len(),
    ensures
        leaves[i].1 <= end,
    decreases leaves.len() - i,
{
    if i + 1 < leaves.len() {
        after_inside(sorted, leaves, start, end, capacity, i + 1);
        assert(settled(sorted, leaves[i + 1], capacity));
        assert(leaves[i].1 == leaves[i + 1].0);
    }
}

proof fn leaf_around(
    sorted: Seq<u64>,
    leaves: Seq<(int, int, usize)>,
    start: int,
    end: int,
    capacity: usize,
    i: int,
) -> (j: int)
    requires
        covers(leaves, start, end),
        start <= i < end,
    ensures
        0 <= j < leaves.len(),
        leaves[j].0 <= i < leaves[j].1,
    decreases leaves.len(),
{
    let last = leaves.len() - 1;
    if leaves[last].0 <= i {
        last
    } else {
        let rest = leaves.drop_last();
        assert(leaves.len() > 1);
        assert(leaves[last - 1].1 == leaves[last].0);
        assert forall|a: int, b: int|
            0 <= a && b == a + 1 && b < rest.len() implies (#[trigger] rest[a]).1 == (
        #[trigger] rest[b]).0 by {
            assert(leaves[a].1 == leaves[b].0);
        }
        leaf_around(sorted, rest, start, leaves[last].0, capacity, i)
    }
}

proof fn build_stop_facts(
    sorted: Seq<u64>,
    requests: Seq<BucketRequest>,
    n: nat,
    work: int,
    policy: SketchPolicy,
)
    requires
        ascending(sorted),
        n <= requests.len(),
        forall|k: int| 0 <= k < requests.len() ==> (#[trigger] requests[k]).depth <= 64,
    ensures
        ({
            let allowance = policy.max_aggregate_work;
            match build_stop(sorted, requests, n, work, policy) {
                None => {
                    &&& forall|k: int|
                        0 <= k < n ==> buildable(sorted, #[trigger] requests[k], policy)
                    &&& n > 0 && allowance < usize::MAX ==> work + asked(sorted, requests, n)
                        <= allowance
                },
                Some(BuildStop::Limit) => (exists|k: int|
                    0 <= k < n && bucket_size(sorted, #[trigger] requests[k])
                        > policy.hard_fallback_threshold) || (allowance < usize::MAX && work + asked(
                    sorted,
                    requests,
                    n,
                ) > allowance),
                Some(BuildStop::Fault(error)) => exists|k: int|
                    {
                        let request = #[trigger] requests[k];
                        &&& 0 <= k < n
                        &&& error == AlgebraicError::InvalidSketchCapacity && !(1
                            <= request.capacity <= 32) || error
                            == AlgebraicError::ZeroShortIdentifier && holds_zero(sorted, request)
                    },
            }
        }),
    decreases n,
{
    if n > 0 {
        let request = requests[n - 1];
        let range = request_range(sorted, request);
        assert(request.depth <= 64);
        size_of_range(sorted, request);
        range_stop_facts(sorted, request, work, policy);
        let rest = work + (range.1 - range.0);
        build_stop_facts(sorted, requests, (n - 1) as nat, rest, policy);
        reveal_with_fuel(asked, 2);
        match range_stop(sorted, range, request.depth, request.capacity, work, policy) {
            None => {
                match build_stop(sorted, requests, (n - 1) as nat, rest, policy) {
                    Some(BuildStop::Fault(error)) => {
                        let k = choose|k: int|
                            {
                                let request = #[trigger] requests[k];
                                &&& 0 <= k < n - 1
                                &&& error == AlgebraicError::InvalidSketchCapacity && !(1
                                    <= request.capacity <= 32) || error
                                    == AlgebraicError::ZeroShortIdentifier && holds_zero(
                                    sorted,
                                    request,
                                )
                            };
                        assert(requests[k] == requests[k]);
                    },
                    _ => {},
                }
            },
            Some(BuildStop::Limit) => {
                assert(bucket_size(sorted, requests[n - 1]) == range.1 - range.0);
            },
            Some(BuildStop::Fault(_)) => {
                assert(requests[n - 1] == request);
            },
        }
    }
}

/// A build succeeds only where every bucket is within the threshold and all together
/// within the allowance, with capacities that sketches have and without the identifier
/// zero.
pub proof fn success_keeps_policy(
    sorted: Seq<u64>,
    requests: Seq<BucketRequest>,
    policy: SketchPolicy,
    result: Result<SketchResult, AlgebraicError>,
)
    requires
        ascending(sorted),
        built(sorted, requests, policy, result),
        result matches Ok(SketchResult::Success(_)),
    ensures
        forall|k: int|
            0 <= k < requests.len() ==> (#[trigger] requests[k]).depth <= 64 && buildable(
                sorted,
                requests[k],
                policy,
            ),
        requests.len() > 0 && policy.max_aggregate_work < usize::MAX ==> asked(
            sorted,
            requests,
            requests.len(),
        ) <= policy.max_aggregate_work,
{
    build_stop_facts(sorted, requests, requests.len(), 0, policy);
}

/// A build gives up only where a bucket is beyond the threshold, or all together are
/// beyond the allowance.
pub proof fn fallback_has_reason(
    sorted: Seq<u64>,
    requests: Seq<BucketRequest>,
    policy: SketchPolicy,
    result: Result<SketchResult, AlgebraicError>,
)
    requires
        ascending(sorted),
        built(sorted, requests, policy, result),
        result matches Ok(SketchResult::FallbackToRangeSync),
    ensures
        (exists|k: int|
            0 <= k < requests.len() && bucket_size(sorted, #[trigger] requests[k])
                > policy.hard_fallback_threshold) || (policy.max_aggregate_work < usize::MAX
            && asked(sorted, requests, requests.len()) > policy.max_aggregate_work),
{
    build_stop_facts(sorted, requests, requests.len(), 0, policy);
}

/// A build fails only for a request that is too deep, one of a capacity that no sketch
/// has, or one whose bucket holds the identifier zero.
pub proof fn failure_has_reason(
    sorted: Seq<u64>,
    requests: Seq<BucketRequest>,
    policy: SketchPolicy,
    result: Result<SketchResult, AlgebraicError>,
    error: AlgebraicError,
)
    requires
        ascending(sorted),
        built(sorted, requests, policy, result),
        result == Err::<SketchResult, AlgebraicError>(error),
    ensures
        exists|k: int|
            {
                let request = #[trigger] requests[k];
                &&& 0 <= k < requests.len()
                &&& error == AlgebraicError::InvalidBucketIndex && request.depth > 64 || error
                    == AlgebraicError::InvalidSketchCapacity && !(1 <= request.capacity <= 32)
                    || error == AlgebraicError::ZeroShortIdentifier && holds_zero(sorted, request)
            },
{
    if !too_deep(requests) {
        build_stop_facts(sorted, requests, requests.len(), 0, policy);
    }
}

/// The sketch is that of a part of the index around the place, with the capacity.
pub open spec fn sketches_around(
    sorted: Seq<u64>,
    sketch: SyndromeSketch,
    start: int,
    end: int,
    place: int,
    capacity: usize,
) -> bool {
    &&& 0 <= start <= place < end <= sorted.len()
    &&& sketch.coordinates@.len() == capacity
    &&& sketch_of(sorted.subrange(start, end), sketch.coordinates@)
}

proof fn leaves_at(
    sorted: Seq<u64>,
    requests: Seq<BucketRequest>,
    n: nat,
    k: int,
    j: int,
) -> (place: int)
    requires
        0 <= k < n,
        n <= requests.len(),
        ({
            let range = request_range(sorted, requests[k]);
            0 <= j < leaf_ranges(
                sorted,
                range.0,
                range.1,
                requests[k].depth,
                requests[k].capacity,
            ).len()
        }),
    ensures
        0 <= place < build_leaves(sorted, requests, n).len(),
        ({
            let range = request_range(sorted, requests[k]);
            build_leaves(sorted, requests, n)[place] == leaf_ranges(
                sorted,
                range.0,
                range.1,
                requests[k].depth,
                requests[k].capacity,
            )[j]
        }),
    decreases n,
{
    let range = request_range(sorted, requests[n - 1]);
    let own = leaf_ranges(
        sorted,
        range.0,
        range.1,
        requests[n - 1].depth,
        requests[n - 1].capacity,
    );
    if k == n - 1 {
        j
    } else {
        let place = leaves_at(sorted, requests, (n - 1) as nat, k, j);
        own.len() as int + place
    }
}

/// Every identifier of a requested bucket is in one of the sketches of a build, of the
/// capacity that was asked for, with none but identifiers of that bucket: no more than
/// the capacity, or all the same.
pub proof fn requests_are_sketched(
    sorted: Seq<u64>,
    requests: Seq<BucketRequest>,
    policy: SketchPolicy,
    sketches: Vec<SyndromeSketch>,
    k: int,
    i: int,
)
    requires
        ascending(sorted),
        built(sorted, requests, policy, Ok(SketchResult::Success(sketches))),
        0 <= k < requests.len(),
        0 <= i < sorted.len(),
        in_bucket(sorted[i], requests[k].depth, requests[k].prefix),
    ensures
        exists|place: int, start: int, end: int|
            {
                &&& 0 <= place < sketches@.len()
                &&& #[trigger] sketches_around(
                    sorted,
                    sketches@[place],
                    start,
                    end,
                    i,
                    requests[k].capacity,
                )
                &&& forall|x: int|
                    start <= x < end ==> in_bucket(
                        #[trigger] sorted[x],
                        requests[k].depth,
                        requests[k].prefix,
                    )
                &&& end - start <= requests[k].capacity || forall|x: int, y: int|
                    start <= x < end && start <= y < end ==> #[trigger] sorted[x]
                        == #[trigger] sorted[y]
            },
{
    let request = requests[k];
    assert(request.depth <= 64);
    let range = request_range(sorted, request);
    let leaves = leaf_ranges(sorted, range.0, range.1, request.depth, request.capacity);
    request_is_covered(sorted, request);
    size_of_range(sorted, request);
    let j = leaf_around(sorted, leaves, range.0, range.1, request.capacity, i);
    assert(settled(sorted, leaves[j], request.capacity));
    leaf_inside(sorted, leaves, range.0, range.1, request.capacity, j);
    let n = requests.len();
    let place = leaves_at(sorted, requests, n, k, j);
    assert(is_leaf_sketch(sorted, build_leaves(sorted, requests, n)[place], sketches@[place]));
    assert(sketches_around(
        sorted,
        sketches@[place],
        leaves[j].0,
        leaves[j].1,
        i,
        request.capacity,
    ));
}

/// The sketch of a requested bucket is that of the identifiers with its leading bits, with
/// as many coordinates as were asked for.
pub proof fn bucket_sketch_by_bits(
    sorted: Seq<u64>,
    request: BucketRequest,
    sketch: SyndromeSketch,
)
    requires
        request.depth <= 64,
        (request.prefix as nat) < pow2(request.depth as nat),
        is_bucket_sketch(sorted, request, sketch),
    ensures
        sketch.coordinates@.len() == request.capacity,
        exists|start: int, end: int|
            {
                &&& 0 <= start <= end <= sorted.len()
                &&& forall|i: int|
                    0 <= i < sorted.len() ==> (start <= i < end <==> leads_with(
                        #[trigger] sorted[i],
                        request.depth,
                        request.prefix,
                    ))
                &&& sketch_of(#[trigger] sorted.subrange(start, end), sketch.coordinates@)
            },
{
    let slice = choose|slice: Seq<u64>| #[trigger]
        is_bucket(sorted, request.depth, request.prefix, slice) && sketch_of(
            slice,
            sketch.coordinates@,
        );
    slice_by_bits(sorted, request.depth, request.prefix, slice);
    let start = choose|start: int|
        {
            &&& 0 <= start && start + slice.len() <= sorted.len()
            &&& slice == #[trigger] sorted.subrange(start, start + slice.len())
            &&& forall|i: int|
                0 <= i < sorted.len() ==> (start <= i < start + slice.len() <==> leads_with(
                    #[trigger] sorted[i],
                    request.depth,
                    request.prefix,
                ))
        };
    let end = start + slice.len();
    assert(sketch_of(sorted.subrange(start, end), sketch.coordinates@));
}

/// A zero identifier is asked for where the index holds it and a request is for the first
/// bucket of its depth.
pub proof fn zero_is_requested(sorted: Seq<u64>, requests: Seq<BucketRequest>, k: int, i: int)
    requires
        forall|k: int|
            0 <= k < requests.len() ==> (#[trigger] requests[k]).depth <= 64
                && (requests[k].prefix as nat) < pow2(requests[k].depth as nat),
        ascending(sorted),
        0 <= k < requests.len(),
        0 <= i < sorted.len(),
        sorted[i] == 0,
        requests[k].prefix == 0,
    ensures
        zero_requested(sorted, requests),
{
    let request = requests[k];
    request_is_covered(sorted, request);
    let range = request_range(sorted, request);
    let slice = sorted.subrange(range.0, range.1);
    assert(bucket_positions(sorted, request.depth, request.prefix, range.0, range.1));
    assert(is_bucket(sorted, requests[k].depth, requests[k].prefix, slice));
    positions_hold_bucket(sorted, request.depth, request.prefix, range.0, range.1, i);
    bucket_by_bits(sorted[i], request.depth, request.prefix);
    if request.depth > 0 {
        let shift = (64 - request.depth) as u64;
        lemma_u64_shr_is_div(0, shift);
        lemma_pow2_pos(shift as nat);
        assert(0nat / pow2(shift as nat) == 0) by (nonlinear_arith)
            requires
                pow2(shift as nat) > 0,
        ;
    }
    assert(slice[i - range.0] == 0);
}

} // verus!
