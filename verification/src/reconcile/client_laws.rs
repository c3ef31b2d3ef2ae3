//! What the requester's decisions are worth to the exchange: no part of the key
//! space and no decoded element is lost from one round to the next.

use vstd::prelude::*;
use vstd::arithmetic::power2::{
    lemma2_to64, lemma_pow2_adds, lemma_pow2_pos, lemma_pow2_unfold, pow2,
};
use super::client::{
    bucket_capacity, bucket_depth, bucket_share, count_delta, decoded_roots, estimated_action,
    greatest, least, plan_stays_failed, request_for, retries_make_progress, retry_plan,
    retry_requests, rounds_threshold, selection, target_capacity, total_capacity_concat, transition,
    xor_all, ClientAction, ReconciliationClient, RemoteDigest,
};
use super::resident::{strata_view, ResidentKernel};
use super::triage::{
    strata_estimate, strata_outcomes, total_capacity, BucketDecodeSuccess, BucketRequest,
};
use super::algebraic::AlgebraicError;

verus! {

/// A 32-bit key lies in the bucket: the prefix is its leading bits.
pub open spec fn key_in(key: u32, depth: u8, prefix: u32) -> bool {
    depth <= 32 && key as nat / pow2((32 - depth) as nat) == prefix as nat
}

/// The bucket exists: its prefix has no more bits than its depth.
pub open spec fn bucket_exists(depth: u8, prefix: u32) -> bool {
    depth <= 32 && (prefix as nat) < pow2(depth as nat)
}

/// A request asks for the bucket.
pub open spec fn requested(requests: Seq<BucketRequest>, depth: int, prefix: int) -> bool {
    exists|i: int|
        0 <= i < requests.len() && (#[trigger] requests[i]).depth == depth && requests[i].prefix
            == prefix
}

proof fn request_for_found(requests: Seq<BucketRequest>, bucket: (u8, u32), from: int)
    requires
        0 <= from,
    ensures
        match request_for(requests, bucket, from) {
            Some(request) => {
                &&& request.depth == bucket.0
                &&& request.prefix == bucket.1
                &&& exists|i: int|
                    from <= i < requests.len() && #[trigger] requests[i] == request && forall|
                        j: int,
                    |
                        from <= j < i ==> !((#[trigger] requests[j]).depth == bucket.0
                            && requests[j].prefix == bucket.1)
            },
            None => forall|i: int|
                from <= i < requests.len() ==> !((#[trigger] requests[i]).depth == bucket.0
                    && requests[i].prefix == bucket.1),
        },
    decreases requests.len() - from,
{
    if from < requests.len() {
        if requests[from].prefix == bucket.1 && requests[from].depth == bucket.0 {
            assert(requests[from] == request_for(requests, bucket, from)->0);
        } else {
            request_for_found(requests, bucket, from + 1);
        }
    }
}

/// The two halves of a bucket have its keys and no others.
proof fn halves_cover(key: u32, depth: u8, prefix: u32)
    requires
        depth < 32,
        bucket_exists(depth, prefix),
    ensures
        2 * prefix < 0x1_0000_0000,
        key_in(key, depth, prefix) <==> key as nat / pow2((32 - (depth + 1)) as nat) == 2 * prefix
            || key as nat / pow2((32 - (depth + 1)) as nat) == 2 * prefix + 1,
{
    let w = pow2((32 - (depth + 1)) as nat) as int;
    lemma_pow2_unfold((32 - depth) as nat);
    lemma_pow2_pos((32 - (depth + 1)) as nat);
    lemma2_to64();
    lemma_pow2_adds(depth as nat, (32 - depth) as nat);
    lemma_pow2_pos(depth as nat);
    lemma_pow2_adds((depth + 1) as nat, (32 - (depth + 1)) as nat);
    lemma_pow2_unfold((depth + 1) as nat);
    assert(pow2((depth + 1) as nat) <= 0x1_0000_0000) by (nonlinear_arith)
        requires
            pow2((depth + 1) as nat) * w == 0x1_0000_0000,
            w >= 1,
            pow2((depth + 1) as nat) >= 0,
    ;
    let k = key as int;
    assert(k / (2 * w) == (k / w) / 2) by {
        vstd::arithmetic::div_mod::lemma_div_denominator(k, w, 2);
        assert(w * 2 == 2 * w);
    }
}

/// All requests are for buckets that exist.
pub open spec fn buckets_exist(requests: Seq<BucketRequest>) -> bool {
    forall|i: int|
        0 <= i < requests.len() ==> bucket_exists((#[trigger] requests[i]).depth, requests[i].prefix)
}

/// What one failed bucket adds to a plan.
proof fn plan_step(
    failed: Seq<(u8, u32)>,
    previous: Seq<BucketRequest>,
    share: nat,
    limit: nat,
    n: nat,
) -> (step: (BucketRequest, Seq<BucketRequest>))
    requires
        0 < n <= failed.len(),
        retry_plan(failed, previous, share, limit, n) is Some,
        buckets_exist(previous),
    ensures
        ({
            let (request, retries) = step;
            let bucket = failed[n - 1];
            &&& retry_plan(failed, previous, share, limit, (n - 1) as nat) is Some
            &&& retry_plan(failed, previous, share, limit, n)->0 == retry_plan(
                failed,
                previous,
                share,
                limit,
                (n - 1) as nat,
            )->0 + retries
            &&& previous.contains(request)
            &&& request.depth == bucket.0
            &&& request.prefix == bucket.1
            &&& bucket_exists(bucket.0, bucket.1)
            &&& if request.capacity < 32 {
                &&& retries.len() == 1
                &&& retries[0].depth == bucket.0
                &&& retries[0].prefix == bucket.1
                &&& request.capacity < retries[0].capacity <= 32
            } else {
                &&& bucket.0 < 31
                &&& retries.len() == 2
                &&& retries[0].depth == bucket.0 + 1
                &&& retries[1].depth == bucket.0 + 1
                &&& retries[0].prefix == 2 * bucket.1
                &&& retries[1].prefix == 2 * bucket.1 + 1
                &&& 4 <= retries[0].capacity <= 32
                &&& 4 <= retries[1].capacity <= 32
            }
        }),
{
    let bucket = failed[n - 1];
    request_for_found(previous, bucket, 0);
    let request = request_for(previous, bucket, 0)->0;
    let i = choose|i: int| 0 <= i < previous.len() && #[trigger] previous[i] == request;
    assert(bucket_exists(previous[i].depth, previous[i].prefix));
    retries_make_progress(request, share);
    (request, retry_requests(request, share)->0)
}

/// The bucket is asked for, whole or in both halves.
pub open spec fn asked_for(requests: Seq<BucketRequest>, bucket: (u8, u32)) -> bool {
    requested(requests, bucket.0 as int, bucket.1 as int) || (requested(
        requests,
        bucket.0 + 1,
        2 * bucket.1,
    ) && requested(requests, bucket.0 + 1, 2 * bucket.1 + 1))
}

proof fn plan_asks(
    failed: Seq<(u8, u32)>,
    previous: Seq<BucketRequest>,
    share: nat,
    limit: nat,
    n: nat,
    k: int,
)
    requires
        0 <= k < n <= failed.len(),
        retry_plan(failed, previous, share, limit, n) is Some,
        buckets_exist(previous),
    ensures
        asked_for(retry_plan(failed, previous, share, limit, n)->0, failed[k]),
    decreases n,
{
    let (request, retries) = plan_step(failed, previous, share, limit, n);
    let before = retry_plan(failed, previous, share, limit, (n - 1) as nat)->0;
    let plan = before + retries;
    let bucket = failed[k];
    if k < n - 1 {
        plan_asks(failed, previous, share, limit, (n - 1) as nat, k);
        requested_more(before, retries, bucket.0 as int, bucket.1 as int);
        requested_more(before, retries, bucket.0 + 1, 2 * bucket.1);
        requested_more(before, retries, bucket.0 + 1, 2 * bucket.1 + 1);
    } else {
        let size = before.len() as int;
        assert(plan[size] == retries[0]);
        if retries.len() == 2 {
            assert(plan[size + 1] == retries[1]);
        }
    }
}

proof fn plan_replaces(
    failed: Seq<(u8, u32)>,
    previous: Seq<BucketRequest>,
    share: nat,
    limit: nat,
    n: nat,
    i: int,
) -> (k: int)
    requires
        n <= failed.len(),
        retry_plan(failed, previous, share, limit, n) is Some,
        0 <= i < retry_plan(failed, previous, share, limit, n)->0.len(),
        buckets_exist(previous),
    ensures
        0 <= k < n,
        replaces(retry_plan(failed, previous, share, limit, n)->0[i], previous, failed[k]),
    decreases n,
{
    let (request, retries) = plan_step(failed, previous, share, limit, n);
    let before = retry_plan(failed, previous, share, limit, (n - 1) as nat)->0;
    if i < before.len() {
        plan_replaces(failed, previous, share, limit, (n - 1) as nat, i)
    } else {
        let at = choose|at: int| 0 <= at < previous.len() && previous[at] == request;
        assert(previous[at].depth == failed[n - 1].0);
        assert((before + retries)[i] == retries[i - before.len()]);
        n - 1
    }
}

/// Some failed bucket below a place has the key.
spec fn key_failed(failed: Seq<(u8, u32)>, n: int, key: u32) -> bool {
    exists|k: int| 0 <= k < n && key_in(key, (#[trigger] failed[k]).0, failed[k].1)
}

/// Some request has the key.
pub open spec fn key_requested(requests: Seq<BucketRequest>, key: u32) -> bool {
    exists|i: int|
        0 <= i < requests.len() && key_in(key, (#[trigger] requests[i]).depth, requests[i].prefix)
}

proof fn plan_covers(
    failed: Seq<(u8, u32)>,
    previous: Seq<BucketRequest>,
    share: nat,
    limit: nat,
    n: nat,
    key: u32,
)
    requires
        n <= failed.len(),
        retry_plan(failed, previous, share, limit, n) is Some,
        buckets_exist(previous),
    ensures
        key_failed(failed, n as int, key) <==> key_requested(
            retry_plan(failed, previous, share, limit, n)->0,
            key,
        ),
    decreases n,
{
    if n > 0 {
        let (request, retries) = plan_step(failed, previous, share, limit, n);
        let before = retry_plan(failed, previous, share, limit, (n - 1) as nat)->0;
        let plan = before + retries;
        let bucket = failed[n - 1];
        let size = before.len() as int;
        plan_covers(failed, previous, share, limit, (n - 1) as nat, key);
        assert(plan[size] == retries[0]);
        if retries.len() == 2 {
            assert(plan[size + 1] == retries[1]);
            halves_cover(key, bucket.0, bucket.1);
        }
        if key_requested(before, key) {
            let i = choose|i: int|
                0 <= i < before.len() && key_in(
                    key,
                    (#[trigger] before[i]).depth,
                    before[i].prefix,
                );
            assert(plan[i] == before[i]);
        }
        if key_requested(plan, key) && !key_in(key, bucket.0, bucket.1) {
            let i = choose|i: int|
                0 <= i < plan.len() && key_in(key, (#[trigger] plan[i]).depth, plan[i].prefix);
            assert(i < size);
            assert(before[i] == plan[i]);
        }
        if key_failed(failed, n - 1, key) {
            let k = choose|k: int|
                0 <= k < n - 1 && key_in(key, (#[trigger] failed[k]).0, failed[k].1);
            assert(key_in(key, failed[k].0, failed[k].1));
        }
        if key_failed(failed, n as int, key) && !key_in(key, bucket.0, bucket.1) {
            let k = choose|k: int|
                0 <= k < n && key_in(key, (#[trigger] failed[k]).0, failed[k].1);
            assert(k < n - 1);
        }
    }
}

/// The request makes progress on a failed bucket: it asks for the same bucket with a
/// larger capacity than before, or for one of its halves where it had the most.
pub open spec fn replaces(
    request: BucketRequest,
    previous: Seq<BucketRequest>,
    bucket: (u8, u32),
) -> bool {
    &&& 0 < request.capacity <= 32
    &&& exists|i: int|
        0 <= i < previous.len() && (#[trigger] previous[i]).depth == bucket.0 && previous[i].prefix
            == bucket.1 && {
            ||| request.depth == bucket.0 && request.prefix == bucket.1 && request.capacity
                > previous[i].capacity
            ||| request.depth == bucket.0 + 1 && (request.prefix == 2 * bucket.1 || request.prefix
                == 2 * bucket.1 + 1) && previous[i].capacity >= 32
        }
}

proof fn requested_more(
    before: Seq<BucketRequest>,
    more: Seq<BucketRequest>,
    depth: int,
    prefix: int,
)
    ensures
        requested(before, depth, prefix) ==> requested(before + more, depth, prefix),
{
    if requested(before, depth, prefix) {
        let i = choose|i: int|
            0 <= i < before.len() && (#[trigger] before[i]).depth == depth && before[i].prefix
                == prefix;
        assert((before + more)[i] == before[i]);
    }
}

/// Where the exchange goes on with bucket sketches, every failed bucket is asked for
/// again, whole or in both halves, with progress, and nothing else is: a key is in a
/// bucket that failed exactly where it is in one that is requested.
pub proof fn failed_buckets_are_retried(
    successes: Seq<BucketDecodeSuccess>,
    failed: Seq<(u8, u32)>,
    previous: Seq<BucketRequest>,
    accumulated: Seq<u64>,
    estimate: Option<u64>,
    aggregate_cap: usize,
    action: ClientAction,
    key: u32,
)
    requires
        transition(
            successes,
            failed,
            previous,
            accumulated,
            estimate,
            aggregate_cap,
            action,
        ),
        buckets_exist(previous),
    ensures
        action matches ClientAction::BucketSketches { requests, .. } ==> {
            &&& failed.len() > 0
            &&& forall|k: int| 0 <= k < failed.len() ==> asked_for(requests@, #[trigger] failed[k])
            &&& forall|i: int|
                0 <= i < requests@.len() ==> exists|k: int|
                    0 <= k < failed.len() && replaces(
                        #[trigger] requests@[i],
                        previous,
                        #[trigger] failed[k],
                    )
            &&& (exists|k: int|
                0 <= k < failed.len() && key_in(key, (#[trigger] failed[k]).0, failed[k].1))
                <==> key_requested(requests@, key)
        },
{
    if let ClientAction::BucketSketches { requests, .. } = action {
        let roots = accumulated + decoded_roots(successes, successes.len());
        let share = bucket_share(estimate, roots.len(), failed.len());
        let limit = least(aggregate_cap as nat, 4096);
        let n = failed.len();
        assert forall|k: int| 0 <= k < n implies asked_for(requests@, #[trigger] failed[k]) by {
            plan_asks(failed, previous, share, limit, n, k);
        }
        assert forall|i: int| 0 <= i < requests@.len() implies exists|k: int|
            0 <= k < failed.len() && replaces(
                #[trigger] requests@[i],
                previous,
                #[trigger] failed[k],
            ) by {
            let k = plan_replaces(failed, previous, share, limit, n, i);
            assert(replaces(requests@[i], previous, failed[k]));
        }
        plan_covers(failed, previous, share, limit, n, key);
    }
}

/// Roots that were found stay found: the action carries on the roots of all rounds
/// before and those of every bucket that decoded, and nothing is resolved while a
/// bucket is outstanding.
pub proof fn decoded_roots_are_kept(
    successes: Seq<BucketDecodeSuccess>,
    failed: Seq<(u8, u32)>,
    previous: Seq<BucketRequest>,
    accumulated: Seq<u64>,
    estimate: Option<u64>,
    aggregate_cap: usize,
    action: ClientAction,
)
    requires
        transition(
            successes,
            failed,
            previous,
            accumulated,
            estimate,
            aggregate_cap,
            action,
        ),
    ensures
        ({
            let all = accumulated + successes.map_values(
                |success: BucketDecodeSuccess| success.roots@,
            ).flatten();
            match action {
                ClientAction::ResolveRoots { roots } => failed.len() == 0 && roots@ == all,
                ClientAction::BucketSketches { accumulated_roots, .. } => failed.len() > 0
                    && accumulated_roots@ == all,
                ClientAction::ExtremityDiff => failed.len() > 0,
                ClientAction::Synchronized => false,
            }
        }),
{
    roots_flatten(successes, successes.len());
    assert(successes.take(successes.len() as int) =~= successes);
}

proof fn roots_flatten(successes: Seq<BucketDecodeSuccess>, n: nat)
    requires
        n <= successes.len(),
    ensures
        decoded_roots(successes, n) == successes.take(n as int).map_values(
            |success: BucketDecodeSuccess| success.roots@,
        ).flatten(),
    decreases n,
{
    let roots = |success: BucketDecodeSuccess| success.roots@;
    let lists = successes.take(n as int).map_values(roots);
    if n == 0 {
        assert(lists.flatten() =~= Seq::<u64>::empty());
    } else {
        roots_flatten(successes, (n - 1) as nat);
        let before = successes.take(n - 1).map_values(roots);
        assert(lists =~= before.push(successes[n - 1].roots@));
        lists.lemma_flatten_and_flatten_alt_are_equivalent();
        before.lemma_flatten_and_flatten_alt_are_equivalent();
        assert(lists.drop_last() =~= before);
    }
}

/// The sum of the capacities that requests ask for.
pub open spec fn capacity_sum(requests: Seq<BucketRequest>) -> int {
    requests.map_values(|request: BucketRequest| request.capacity as int).fold_left(
        0int,
        |sum: int, capacity: int| sum + capacity,
    )
}

/// Adding up the first capacities one by one gives their sum.
pub proof fn capacity_sum_total(requests: Seq<BucketRequest>, n: nat)
    requires
        n <= requests.len(),
    ensures
        total_capacity(requests, n) == capacity_sum(requests.take(n as int)),
    decreases n,
{
    let capacity = |request: BucketRequest| request.capacity as int;
    let values = requests.take(n as int).map_values(capacity);
    if n > 0 {
        capacity_sum_total(requests, (n - 1) as nat);
        assert(values.drop_last() =~= requests.take(n - 1).map_values(capacity));
    }
}

/// The requests of a plan stay within the limit.
proof fn plan_within(
    failed: Seq<(u8, u32)>,
    previous: Seq<BucketRequest>,
    share: nat,
    limit: nat,
    n: nat,
)
    requires
        retry_plan(failed, previous, share, limit, n) is Some,
    ensures
        capacity_sum(retry_plan(failed, previous, share, limit, n)->0) <= limit,
{
    let plan = retry_plan(failed, previous, share, limit, n)->0;
    capacity_sum_total(plan, plan.len());
    assert(plan.take(plan.len() as int) =~= plan);
}

/// The bucket was asked for before and can be asked for again: below the largest
/// capacity, or above the last level that can be split.
pub open spec fn retriable(previous: Seq<BucketRequest>, bucket: (u8, u32)) -> bool {
    &&& requested(previous, bucket.0 as int, bucket.1 as int)
    &&& forall|i: int|
        0 <= i < previous.len() && (#[trigger] previous[i]).depth == bucket.0 && previous[i].prefix
            == bucket.1 ==> previous[i].capacity < 32 || bucket.0 < 31
}

proof fn plan_succeeds(
    failed: Seq<(u8, u32)>,
    previous: Seq<BucketRequest>,
    share: nat,
    limit: nat,
    n: nat,
)
    requires
        n <= failed.len(),
        forall|k: int| 0 <= k < n ==> retriable(previous, #[trigger] failed[k]),
        2 * share + 100 <= usize::MAX,
        64 * n <= limit,
    ensures
        retry_plan(failed, previous, share, limit, n) matches Some(plan) && total_capacity(
            plan,
            plan.len(),
        ) <= 64 * n,
    decreases n,
{
    if n > 0 {
        plan_succeeds(failed, previous, share, limit, (n - 1) as nat);
        let before = retry_plan(failed, previous, share, limit, (n - 1) as nat)->0;
        let bucket = failed[n - 1];
        assert(retriable(previous, bucket));
        request_for_found(previous, bucket, 0);
        let request = request_for(previous, bucket, 0)->0;
        let retries = retry_requests(request, share)->0;
        assert(retry_requests(request, share) is Some);
        total_capacity_concat(before, retries, retries.len());
        assert(total_capacity(retries, 0) == 0);
        assert(total_capacity(retries, 1) == retries[0].capacity);
        if retries.len() == 2 {
            assert(total_capacity(retries, 2) == retries[0].capacity + retries[1].capacity);
        }
    }
}

/// The exchange gives sketches up only for a reason: where every failed bucket can be
/// asked for again and the sketches fit, it goes on, within the caps. Where a failed
/// bucket was never asked for, it does not.
pub proof fn retry_is_owed(
    successes: Seq<BucketDecodeSuccess>,
    failed: Seq<(u8, u32)>,
    previous: Seq<BucketRequest>,
    accumulated: Seq<u64>,
    estimate: Option<u64>,
    aggregate_cap: usize,
    action: ClientAction,
)
    requires
        transition(
            successes,
            failed,
            previous,
            accumulated,
            estimate,
            aggregate_cap,
            action,
        ),
    ensures
        failed.len() > 0 && 64 * failed.len() <= aggregate_cap && 64 * failed.len() <= 4096 && (
        estimate matches Some(count) ==> 2 * count + 100 <= usize::MAX) && (forall|k: int|
            0 <= k < failed.len() ==> retriable(previous, #[trigger] failed[k])) ==> action is
            BucketSketches,
        (exists|k: int|
            0 <= k < failed.len() && !requested(
                previous,
                (#[trigger] failed[k]).0 as int,
                failed[k].1 as int,
            )) ==> action is ExtremityDiff,
        action matches ClientAction::BucketSketches { requests, .. } ==> capacity_sum(requests@)
            <= aggregate_cap && capacity_sum(requests@) <= 4096,
{
    let roots = accumulated + decoded_roots(successes, successes.len());
    let share = bucket_share(estimate, roots.len(), failed.len());
    let limit = least(aggregate_cap as nat, 4096);
    let n = failed.len();
    if n > 0 {
        if let Some(count) = estimate {
            assert(share <= count) by (nonlinear_arith)
                requires
                    share == if count as nat <= roots.len() {
                        0
                    } else {
                        (count as nat - roots.len()) as nat / n
                    },
                    n > 0,
            ;
        }
        if 64 * n <= aggregate_cap && 64 * n <= 4096 && (estimate matches Some(count) ==> 2 * count
            + 100 <= usize::MAX) && (forall|k: int|
            0 <= k < n ==> retriable(previous, #[trigger] failed[k])) {
            plan_succeeds(failed, previous, share, limit, n);
        }
        if exists|k: int|
            0 <= k < n && !requested(
                previous,
                (#[trigger] failed[k]).0 as int,
                failed[k].1 as int,
            ) {
            let k = choose|k: int|
                0 <= k < n && !requested(
                    previous,
                    (#[trigger] failed[k]).0 as int,
                    failed[k].1 as int,
                );
            request_for_found(previous, failed[k], 0);
            assert(retry_plan(failed, previous, share, limit, (k + 1) as nat) is None);
            plan_stays_failed(failed, previous, share, limit, (k + 1) as nat, n);
        }
        if action is BucketSketches {
            plan_within(failed, previous, share, limit, n);
        }
    }
}

/// A failed bucket that was below the largest capacity is asked for with one and a
/// half times its share of the elements that are still missing, or of one more than
/// it had, and four to spare, up to the largest.
proof fn plan_capacities(
    failed: Seq<(u8, u32)>,
    previous: Seq<BucketRequest>,
    share: nat,
    limit: nat,
    n: nat,
    k: int,
)
    requires
        0 <= k < n <= failed.len(),
        retry_plan(failed, previous, share, limit, n) is Some,
    ensures
        ({
            let plan = retry_plan(failed, previous, share, limit, n)->0;
            exists|i: int, r: int|
                0 <= i < previous.len() && 0 <= r < plan.len() && #[trigger] provisions(
                    previous[i],
                    plan[r],
                    failed[k],
                    share,
                )
        }),
    decreases n,
{
    let before = retry_plan(failed, previous, share, limit, (n - 1) as nat)->0;
    let plan = retry_plan(failed, previous, share, limit, n)->0;
    if k < n - 1 {
        plan_capacities(failed, previous, share, limit, (n - 1) as nat, k);
        let (i, r) = choose|i: int, r: int|
            0 <= i < previous.len() && 0 <= r < before.len() && #[trigger] provisions(
                previous[i],
                before[r],
                failed[k],
                share,
            );
        assert(plan[r] == before[r]);
        assert(provisions(previous[i], plan[r], failed[k], share));
    } else {
        request_for_found(previous, failed[k], 0);
        let request = request_for(previous, failed[k], 0)->0;
        let i = choose|i: int| 0 <= i < previous.len() && #[trigger] previous[i] == request;
        let retries = retry_requests(request, share)->0;
        assert(plan[before.len() as int] == retries[0]);
        assert(provisions(previous[i], plan[before.len() as int], failed[k], share));
    }
}

/// The request provides for the elements that a failed bucket is thought to hold:
/// one and a half times as many, rounded up, and four to spare, up to 32. That is at
/// least one more than was asked for before, and where the bucket is split each half
/// provides for half the share.
pub open spec fn provisions(
    before: BucketRequest,
    request: BucketRequest,
    bucket: (u8, u32),
    share: nat,
) -> bool {
    let expected = if before.capacity >= 32 {
        if share / 2 > 4 {
            share / 2
        } else {
            4
        }
    } else if share > before.capacity + 1 {
        share
    } else {
        before.capacity as nat + 1
    };
    let capacity = expected + (expected + 1) / 2 + 4;
    &&& before.depth == bucket.0
    &&& before.prefix == bucket.1
    &&& request.capacity == if capacity < 32 {
        capacity
    } else {
        32
    }
    &&& request.depth == if before.capacity >= 32 {
        bucket.0 + 1
    } else {
        bucket.0 as int
    }
}

/// Every failed bucket is provided for by an equal share of the elements that the
/// estimate says are still missing.
pub proof fn retries_are_provisioned(
    successes: Seq<BucketDecodeSuccess>,
    failed: Seq<(u8, u32)>,
    previous: Seq<BucketRequest>,
    accumulated: Seq<u64>,
    estimate: Option<u64>,
    aggregate_cap: usize,
    action: ClientAction,
    k: int,
    missing: nat,
)
    requires
        transition(
            successes,
            failed,
            previous,
            accumulated,
            estimate,
            aggregate_cap,
            action,
        ),
        0 <= k < failed.len(),
        match estimate {
            Some(count) => {
                let found = accumulated.len() + successes.map_values(
                    |success: BucketDecodeSuccess| success.roots@,
                ).flatten().len();
                missing == if count > found {
                    count - found
                } else {
                    0
                }
            },
            None => missing == 0,
        },
    ensures
        action matches ClientAction::BucketSketches { requests, .. } ==> exists|i: int, r: int|
            0 <= i < previous.len() && 0 <= r < requests@.len() && #[trigger] provisions(
                previous[i],
                requests@[r],
                failed[k],
                missing / failed.len(),
            ),
{
    roots_flatten(successes, successes.len());
    assert(successes.take(successes.len() as int) =~= successes);
    let roots = accumulated + decoded_roots(successes, successes.len());
    let share = bucket_share(estimate, roots.len(), failed.len());
    let limit = least(aggregate_cap as nat, 4096);
    assert(share == missing / failed.len()) by {
        if missing == 0 {
            assert(0nat / failed.len() == 0) by (nonlinear_arith)
                requires
                    failed.len() > 0,
            ;
        }
    }
    if action is BucketSketches {
        plan_capacities(failed, previous, share, limit, failed.len(), k);
    }
}

proof fn depth_facts(target: nat, depth: nat)
    requires
        depth <= 6,
    ensures
        ({
            let found = bucket_depth(target, depth);
            &&& depth <= found <= 6
            &&& found == 6 || 32 * pow2(found) >= target
            &&& found == depth || 32 * pow2((found - 1) as nat) < target
        }),
    decreases 6 - depth,
{
    if !(depth >= 6 || 32 * pow2(depth) >= target) {
        depth_facts(target, depth + 1);
    }
}

/// Buckets of one depth, one for each prefix, have every key once.
proof fn uniform_cover(requests: Seq<BucketRequest>, depth: u8, key: u32) -> (at: int)
    requires
        depth <= 6,
        requests.len() == pow2(depth as nat),
        forall|i: int|
            0 <= i < requests.len() ==> (#[trigger] requests[i]).depth == depth
                && requests[i].prefix == i,
    ensures
        0 <= at < requests.len(),
        forall|i: int|
            0 <= i < requests.len() ==> (key_in(
                key,
                (#[trigger] requests[i]).depth,
                requests[i].prefix,
            ) <==> i == at),
{
    let w = pow2((32 - depth) as nat) as int;
    lemma2_to64();
    lemma_pow2_adds(depth as nat, (32 - depth) as nat);
    lemma_pow2_pos((32 - depth) as nat);
    let at = key as int / w;
    assert(0 <= at < pow2(depth as nat)) by (nonlinear_arith)
        requires
            pow2(depth as nat) * w == 0x1_0000_0000,
            0 <= key < 0x1_0000_0000,
            w > 0,
            at == key as int / w,
    ;
    at
}

/// The capacity to provide for a number of differing elements and a headroom.
pub open spec fn wanted(estimate: nat, headroom: nat) -> nat {
    estimate + (estimate + 1) / 2 + 4 + headroom
}

/// An estimated difference above the threshold leads to the search for a common anchor.
/// Any other is met with bucket sketches that have every key in one bucket each, all
/// of one capacity from 4 to 32, in as few buckets as hold one and a half times the
/// estimate, four to spare and the headroom, up to 64.
pub proof fn estimate_is_provisioned(
    gate: Option<u64>,
    estimate: nat,
    headroom: nat,
    action: ClientAction,
    key: u32,
)
    requires
        estimated_action(gate, estimate, headroom, action),
        wanted(estimate, headroom) <= usize::MAX,
    ensures
        (gate matches Some(threshold) && estimate > threshold) <==> action is ExtremityDiff,
        !(action is ExtremityDiff) ==> (action matches ClientAction::BucketSketches {
            requests,
            accumulated_roots,
        } && {
            let n = requests@.len();
            let capacity = requests@[0].capacity;
            &&& accumulated_roots@.len() == 0
            &&& 1 <= n <= 64
            &&& 4 <= capacity <= 32
            &&& forall|i: int|
                0 <= i < n ==> (#[trigger] requests@[i]).capacity == capacity && requests@[i].depth
                    == requests@[0].depth
            &&& n * capacity >= wanted(estimate, headroom) || n == 64 && capacity == 32
            &&& n > 1 ==> 16 * n < wanted(estimate, headroom)
            &&& capacity > 4 ==> n * (capacity - 1) < wanted(estimate, headroom)
            &&& key_requested(requests@, key)
            &&& forall|i: int, j: int|
                0 <= i < n && 0 <= j < n && key_in(
                    key,
                    (#[trigger] requests@[i]).depth,
                    requests@[i].prefix,
                ) && key_in(key, (#[trigger] requests@[j]).depth, requests@[j].prefix) ==> i == j
        }),
{
    if !(gate matches Some(threshold) && estimate > threshold) {
        let target = target_capacity(estimate, headroom);
        assert(target == wanted(estimate, headroom));
        let depth = bucket_depth(target, 0);
        depth_facts(target, 0);
        let capacity = bucket_capacity(target, depth);
        lemma2_to64();
        lemma_pow2_pos(depth);
        assert(pow2(depth) <= 64);
        let n = pow2(depth) as int;
        let shares = (target + n - 1) / n;
        assert(n * shares >= target && n * (shares - 1) < target) by (nonlinear_arith)
            requires
                n >= 1,
                shares == (target + n - 1) / n,
        ;
        if capacity > 4 {
            assert(n * (capacity - 1) <= n * (shares - 1)) by (nonlinear_arith)
                requires
                    n >= 1,
                    capacity <= shares,
            ;
        }
        if depth > 0 {
            lemma_pow2_unfold(depth);
        }
        if capacity >= shares {
            assert(n * capacity >= n * shares) by (nonlinear_arith)
                requires
                    n >= 1,
                    capacity >= shares,
            ;
        } else {
            assert(capacity == 32);
            assert(n * shares >= n * 33) by (nonlinear_arith)
                requires
                    n >= 1,
                    shares >= 33,
            ;
            assert(n == 64) by {
                if depth < 6 {
                    assert(32 * n >= target);
                    assert(n * (shares - 1) >= n * 32) by (nonlinear_arith)
                        requires
                            n >= 1,
                            shares >= 33,
                    ;
                }
            }
        }
        if let ClientAction::BucketSketches { requests, .. } = action {
            let at = uniform_cover(requests@, depth as u8, key);
            assert(key_in(key, requests@[at].depth, requests@[at].prefix));
        }
    }
}

/// The requester does nothing where digest and count agree in one frame, looks for a
/// common anchor where the frames differ or the responder knows more, and otherwise
/// provides for at least as many elements as the counts differ by.
pub proof fn selection_follows_digests(
    client: ReconciliationClient,
    local: ResidentKernel,
    remote: RemoteDigest,
    concurrency_headroom: usize,
    action: ClientAction,
    difference: nat,
)
    requires
        selection(client, local, remote, concurrency_headroom, action),
        difference == local.accumulator.count - remote.known_event_count || difference
            == remote.known_event_count - local.accumulator.count,
    ensures
        action is Synchronized <==> remote.frame_matches && !remote.has_unknown_extremity
            && local.accumulator.digest == remote.digest && local.accumulator.count
            == remote.known_event_count,
        !remote.frame_matches || remote.has_unknown_extremity ==> action is ExtremityDiff,
        !(action is ResolveRoots),
        client.gate_threshold matches Some(threshold) && difference > threshold && !(
        action is Synchronized) ==> action is ExtremityDiff,
        client.gate_threshold is None && remote.frame_matches && !remote.has_unknown_extremity
            && !(action is Synchronized) ==> action is BucketSketches,
        action matches ClientAction::BucketSketches { requests, .. } ==> {
            let n = requests@.len();
            &&& n > 0
            &&& n * requests@[0].capacity >= difference + (difference + 1) / 2 + 4 || n == 64
                && requests@[0].capacity == 32
        },
{
    if remote.frame_matches && !remote.has_unknown_extremity && !(local.accumulator.digest
        == remote.digest && local.accumulator.count == remote.known_event_count) {
        let outcomes = choose|outcomes: Seq<Result<Vec<u64>, AlgebraicError>>| #[trigger]
            strata_outcomes(strata_view(local.strata), strata_view(remote.strata), outcomes)
                && estimated_action(
                client.gate_threshold,
                greatest(
                    strata_estimate(outcomes).0,
                    count_delta(local.accumulator.count, remote.known_event_count),
                ),
                concurrency_headroom as nat,
                action,
            );
        let estimate = greatest(
            strata_estimate(outcomes).0,
            count_delta(local.accumulator.count, remote.known_event_count),
        );
        assert(estimate >= difference);
        if action is BucketSketches {
            let target = target_capacity(estimate, concurrency_headroom as nat);
            if wanted(estimate, concurrency_headroom as nat) <= usize::MAX {
                estimate_is_provisioned(
                    client.gate_threshold,
                    estimate,
                    concurrency_headroom as nat,
                    action,
                    0,
                );
            } else {
                saturated_request(client.gate_threshold, estimate, concurrency_headroom as nat, action);
            }
        }
    }
}

/// What cannot be counted is met with as many buckets as can be asked for.
proof fn saturated_request(gate: Option<u64>, estimate: nat, headroom: nat, action: ClientAction)
    requires
        estimated_action(gate, estimate, headroom, action),
        wanted(estimate, headroom) > usize::MAX,
        action is BucketSketches,
    ensures
        action matches ClientAction::BucketSketches { requests, .. } && requests@.len() == 64
            && requests@[0].capacity == 32,
{
    let target = target_capacity(estimate, headroom);
    let depth = bucket_depth(target, 0);
    lemma2_to64();
    depth_facts(target, 0);
    assert(target == usize::MAX);
    assert(usize::MAX >= 0xffff_ffff);
    if depth < 6 {
        assert(pow2(depth) <= 32);
    }
    assert((target + 63) as nat / 64 >= 32);
}

/// The exclusive or of lists one behind the other is that of the two, and that of a
/// single word is the word. So the order of the roots does not matter, and a root that
/// is on both sides cancels.
pub proof fn residual_laws(a: Seq<u128>, b: Seq<u128>, word: u128)
    ensures
        xor_all(Seq::empty()) == 0,
        xor_all(seq![word]) == word,
        xor_all(a + b) == xor_all(a) ^ xor_all(b),
        xor_all(a + b) == xor_all(b + a),
        xor_all(a.push(word) + b.push(word)) == xor_all(a + b),
{
    assert(seq![word].drop_last() =~= Seq::<u128>::empty());
    assert(0u128 ^ word == word) by (bit_vector);
    xor_all_concat(a, b);
    xor_all_concat(b, a);
    xor_all_concat(a.push(word), b.push(word));
    assert(a.push(word).drop_last() =~= a);
    assert(b.push(word).drop_last() =~= b);
    let (x, y) = (xor_all(a), xor_all(b));
    assert(x ^ y == y ^ x && (x ^ word) ^ (y ^ word) == x ^ y) by (bit_vector);
}

proof fn xor_all_concat(a: Seq<u128>, b: Seq<u128>)
    ensures
        xor_all(a + b) == xor_all(a) ^ xor_all(b),
    decreases b.len(),
{
    let x = xor_all(a);
    if b.len() == 0 {
        assert(a + b =~= a);
        assert(x ^ 0u128 == x) by (bit_vector);
    } else {
        xor_all_concat(a, b.drop_last());
        assert((a + b).drop_last() =~= a + b.drop_last());
        let (y, z) = (xor_all(b.drop_last()), b.last());
        assert((x ^ y) ^ z == x ^ (y ^ z)) by (bit_vector);
    }
}

/// A number of rounds lets through as many elements as those rounds can ask for, 4096
/// each.
pub proof fn rounds_set_the_gate(max_rounds: usize)
    ensures
        max_rounds * 4096 <= usize::MAX ==> rounds_threshold(max_rounds) == max_rounds * 4096,
        max_rounds * 4096 > usize::MAX ==> rounds_threshold(max_rounds) == usize::MAX,
{
}

} // verus!
