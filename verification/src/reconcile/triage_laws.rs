//! What estimates, requests and batches mean in keys, bytes and elements.

use vstd::prelude::*;
use vstd::arithmetic::div_mod::{lemma_fundamental_div_mod, lemma_fundamental_div_mod_converse};
use vstd::arithmetic::power2::{lemma_pow2_pos, pow2};
use crate::bytes::{byte_range_values, le_bytes_of_value, le_value};
use crate::summary_laws::ascending;
use super::algebraic::{parsed_coordinates, AlgebraicError};
use super::client_laws::{bucket_exists, capacity_sum, capacity_sum_total, key_in};
use super::triage::{
    batch_ends, batch_is, bucket_coordinates, decoded_from, decoded_from_bounds, failures,
    first_problem, range_end, range_start, range_width, range_within, ranges_ascend,
    request_problem, strata_estimate, success_view, successes, tail_count, total_capacity,
    total_capacity_monotone, valid_requests, BucketDecodeBatch, BucketRequest,
};

verus! {

/// How many elements the strata between two decoded to.
pub open spec fn found(outcomes: Seq<Result<Vec<u64>, AlgebraicError>>, from: int, to: int) -> int
    decreases to - from,
{
    if to <= from {
        0
    } else {
        found(outcomes, from, to - 1) + match outcomes[to - 1] {
            Ok(roots) => roots@.len() as int,
            Err(_) => 0,
        }
    }
}

proof fn found_first(outcomes: Seq<Result<Vec<u64>, AlgebraicError>>, from: int, to: int)
    requires
        from < to,
    ensures
        found(outcomes, from, to) == found(outcomes, from + 1, to) + match outcomes[from] {
            Ok(roots) => roots@.len() as int,
            Err(_) => 0,
        },
    decreases to - from,
{
    reveal_with_fuel(found, 2);
    if from + 1 < to {
        found_first(outcomes, from, to - 1);
    }
}

proof fn tail_is_found(outcomes: Seq<Result<Vec<u64>, AlgebraicError>>, r: int)
    requires
        0 <= r <= 32,
    ensures
        tail_count(outcomes, r) == found(outcomes, r, 32),
    decreases 32 - r,
{
    if r < 32 {
        tail_is_found(outcomes, r + 1);
        found_first(outcomes, r, 32);
    }
}

/// Where every stratum decodes, the estimate is the number of elements that were found,
/// with confidence. Where the strata from one on decode and the one below it does not,
/// what they hold, and at least nine, is doubled once for each stratum below them.
/// Where not even the last one decodes, the estimate is saturated.
pub proof fn estimate_by_strata(outcomes: Seq<Result<Vec<u64>, AlgebraicError>>, r: int)
    requires
        outcomes.len() == 32,
        0 <= r <= 32,
        r > 0 ==> outcomes[r - 1] is Err,
        forall|i: int| r <= i < 32 ==> #[trigger] outcomes[i] is Ok,
    ensures
        ({
            let (delta, low_confidence) = strata_estimate(outcomes);
            let held = found(outcomes, r, 32);
            &&& r == 0 ==> delta == held && !low_confidence
            &&& r == 32 ==> delta == 0x4_0000_0000 && low_confidence
            &&& 0 < r < 32 && held >= 9 ==> delta == held * pow2(r as nat) && low_confidence
            &&& 0 < r < 32 && held < 9 ==> delta == 9 * pow2(r as nat) && low_confidence
        }),
{
    decoded_from_bounds(outcomes, 32);
    let d = decoded_from(outcomes, 32);
    if d < r {
        assert(outcomes[r - 1] is Ok);
    }
    if r < d {
        assert(outcomes[d - 1] is Ok);
    }
    tail_is_found(outcomes, r);
}

/// Requests are in order: each asks for one to 32 elements of a bucket that exists, all
/// together for no more than 4096, and every key of a bucket comes before every key of
/// the next ones.
pub open spec fn in_order(requests: Seq<BucketRequest>) -> bool {
    &&& forall|k: int|
        0 <= k < requests.len() ==> 1 <= (#[trigger] requests[k]).capacity <= 32 && bucket_exists(
            requests[k].depth,
            requests[k].prefix,
        )
    &&& capacity_sum(requests) <= 4096
    &&& forall|i: int, j: int, x: u32, y: u32|
        0 <= i < j < requests.len() && #[trigger] key_in(x, requests[i].depth, requests[i].prefix)
            && #[trigger] key_in(y, requests[j].depth, requests[j].prefix) ==> x < y
}

proof fn key_bounds(x: u32, request: BucketRequest)
    requires
        key_in(x, request.depth, request.prefix),
    ensures
        range_start(request) <= x < range_end(request),
{
    let width = range_width(request) as int;
    lemma_pow2_pos((32 - request.depth) as nat);
    lemma_fundamental_div_mod(x as int, width);
    let p = request.prefix as int;
    assert(p * width == width * p) by (nonlinear_arith);
}

proof fn edge_keys(request: BucketRequest)
    requires
        bucket_exists(request.depth, request.prefix),
    ensures
        range_start(request) < range_end(request) <= 0x1_0000_0000,
        key_in(range_start(request) as u32, request.depth, request.prefix),
        key_in((range_end(request) - 1) as u32, request.depth, request.prefix),
{
    range_within(request);
    let width = range_width(request) as int;
    lemma_pow2_pos((32 - request.depth) as nat);
    let p = request.prefix as int;
    assert(p * width == width * p) by (nonlinear_arith);
    lemma_fundamental_div_mod_converse(range_start(request) as int, width, p, 0);
    lemma_fundamental_div_mod_converse(range_end(request) - 1, width, p, width - 1);
}

/// Requests are accepted exactly where they are in order.
pub proof fn requests_by_keys(requests: Seq<BucketRequest>)
    ensures
        valid_requests(requests) <==> in_order(requests),
{
    let n = requests.len();
    capacity_sum_total(requests, n);
    assert(requests.take(n as int) =~= requests);
    if valid_requests(requests) {
        assert forall|k: int| 0 <= k < n implies 1 <= (#[trigger] requests[k]).capacity <= 32
            && bucket_exists(requests[k].depth, requests[k].prefix) by {
            assert(request_problem(requests, k) is None);
        }
        if n > 0 {
            assert(request_problem(requests, n - 1) is None);
        }
        assert forall|i: int, j: int, x: u32, y: u32|
            0 <= i < j < n && #[trigger] key_in(x, requests[i].depth, requests[i].prefix)
                && #[trigger] key_in(y, requests[j].depth, requests[j].prefix) implies x < y by {
            key_bounds(x, requests[i]);
            key_bounds(y, requests[j]);
            ranges_ascend(requests, i, j);
        }
    }
    if in_order(requests) {
        assert forall|k: int| 0 <= k < n implies #[trigger] request_problem(
            requests,
            k,
        ) is None by {
            let request = requests[k];
            assert(1 <= request.capacity <= 32);
            total_capacity_monotone(requests, (k + 1) as nat, n);
            if k > 0 {
                let before = requests[k - 1];
                assert(1 <= before.capacity <= 32);
                edge_keys(request);
                edge_keys(before);
                let x = (range_end(before) - 1) as u32;
                let y = range_start(request) as u32;
                assert(key_in(x, requests[k - 1].depth, requests[k - 1].prefix));
                assert(key_in(y, requests[k].depth, requests[k].prefix));
                assert(x < y);
            }
        }
    }
}

/// The problem of a list is that of the first request that takes it out of order: a
/// capacity of its own or a sum of capacities that is not admitted, or a bucket that
/// does not exist or does not come after the one before it.
pub proof fn problem_is_first(requests: Seq<BucketRequest>, error: AlgebraicError)
    requires
        first_problem(requests, error),
    ensures
        exists|k: int|
            {
                let request = #[trigger] requests[k];
                let upto = requests.take(k + 1);
                &&& 0 <= k < requests.len()
                &&& in_order(requests.take(k))
                &&& !in_order(upto)
                &&& error == if request.capacity < 1 || request.capacity > 32 {
                    AlgebraicError::InvalidSketchCapacity
                } else if !bucket_exists(request.depth, request.prefix) {
                    AlgebraicError::InvalidBucketIndex
                } else if capacity_sum(upto) > 4096 {
                    AlgebraicError::InvalidSketchCapacity
                } else {
                    AlgebraicError::InvalidBucketIndex
                }
            },
{
    let k = choose|k: int|
        0 <= k < requests.len() && #[trigger] request_problem(requests, k) == Some(error) && forall|
            j: int,
        |
            0 <= j < k ==> #[trigger] request_problem(requests, j) is None;
    let upto = requests.take(k + 1);
    let before = requests.take(k);
    capacity_sum_total(requests, (k + 1) as nat);
    assert forall|j: int| 0 <= j <= k implies #[trigger] request_problem(upto, j)
        == request_problem(requests, j) by {
        capacity_sum_total(requests, (j + 1) as nat);
        capacity_sum_total(upto, (j + 1) as nat);
        assert(upto.take(j + 1) =~= requests.take(j + 1));
    }
    assert forall|j: int| 0 <= j < k implies #[trigger] request_problem(before, j) is None by {
        capacity_sum_total(requests, (j + 1) as nat);
        capacity_sum_total(before, (j + 1) as nat);
        assert(before.take(j + 1) =~= requests.take(j + 1));
        assert(request_problem(requests, j) is None);
    }
    requests_by_keys(upto);
    requests_by_keys(before);
    assert(request_problem(upto, k) == request_problem(requests, k));
    assert(!valid_requests(upto));
    assert(requests[k] == requests[k]);
}

spec fn places(outcomes: Seq<Result<Vec<u64>, AlgebraicError>>, decoded: bool, n: nat) -> Seq<int>
    decreases n,
{
    if n == 0 {
        Seq::empty()
    } else {
        let before = places(outcomes, decoded, (n - 1) as nat);
        if (outcomes[n - 1] is Ok) == decoded {
            before.push(n - 1)
        } else {
            before
        }
    }
}

proof fn places_facts(
    requests: Seq<BucketRequest>,
    outcomes: Seq<Result<Vec<u64>, AlgebraicError>>,
    decoded: bool,
    n: nat,
)
    requires
        n <= outcomes.len(),
    ensures
        ({
            let at = places(outcomes, decoded, n);
            &&& ascending(at, n as int)
            &&& forall|i: int|
                0 <= i < n ==> (#[trigger] at.contains(i) <==> (outcomes[i] is Ok) == decoded)
            &&& decoded ==> successes(requests, outcomes, n).len() == at.len() && forall|j: int|
                0 <= j < at.len() ==> {
                    let success = successes(requests, outcomes, n)[j];
                    &&& success.0 == requests[#[trigger] at[j]].depth
                    &&& success.1 == requests[at[j]].prefix
                    &&& outcomes[at[j]] matches Ok(roots) && success.2 == roots@
                }
            &&& !decoded ==> failures(requests, outcomes, n).len() == at.len() && forall|j: int|
                0 <= j < at.len() ==> failures(requests, outcomes, n)[j] == (
                    requests[#[trigger] at[j]].depth,
                    requests[at[j]].prefix,
                )
        }),
    decreases n,
{
    if n > 0 {
        places_facts(requests, outcomes, decoded, (n - 1) as nat);
        let before = places(outcomes, decoded, (n - 1) as nat);
        let at = places(outcomes, decoded, n);
        assert forall|i: int| 0 <= i < n implies (#[trigger] at.contains(i) <==> (
        outcomes[i] is Ok) == decoded) by {
            if i < n - 1 {
                assert(before.contains(i) <==> (outcomes[i] is Ok) == decoded);
                if before.contains(i) {
                    let j = before.index_of(i);
                    assert(at[j] == i);
                }
            } else if (outcomes[i] is Ok) == decoded {
                assert(at[before.len() as int] == i);
            }
        }
    }
}

/// A batch has every requested bucket once, in order: with its elements among the
/// successes where it decoded, and among the failures where it did not.
pub proof fn batch_by_requests(
    batch: BucketDecodeBatch,
    requests: Seq<BucketRequest>,
    outcomes: Seq<Result<Vec<u64>, AlgebraicError>>,
)
    requires
        batch_is(batch, requests, outcomes, outcomes.len()),
    ensures
        exists|at: Seq<int>|
            {
                &&& #[trigger] ascending(at, outcomes.len() as int)
                &&& forall|i: int|
                    0 <= i < outcomes.len() ==> (#[trigger] at.contains(i) <==> outcomes[i] is Ok)
                &&& batch.successful_buckets@.len() == at.len()
                &&& forall|j: int|
                    0 <= j < at.len() ==> {
                        let success = batch.successful_buckets@[j];
                        &&& success.depth == requests[#[trigger] at[j]].depth
                        &&& success.prefix == requests[at[j]].prefix
                        &&& outcomes[at[j]] matches Ok(roots) && success.roots@ == roots@
                    }
            },
        exists|at: Seq<int>|
            {
                &&& #[trigger] ascending(at, outcomes.len() as int)
                &&& forall|i: int|
                    0 <= i < outcomes.len() ==> (#[trigger] at.contains(i) <==> outcomes[i] is Err)
                &&& batch.failed_buckets@.len() == at.len()
                &&& forall|j: int|
                    0 <= j < at.len() ==> batch.failed_buckets@[j] == (
                        requests[#[trigger] at[j]].depth,
                        requests[at[j]].prefix,
                    )
            },
{
    let n = outcomes.len();
    places_facts(requests, outcomes, true, n);
    places_facts(requests, outcomes, false, n);
    let decoded = places(outcomes, true, n);
    let failed = places(outcomes, false, n);
    let views = Seq::new(
        batch.successful_buckets@.len(),
        |i: int| success_view(batch.successful_buckets@[i]),
    );
    assert(views == successes(requests, outcomes, n));
    assert(views.len() == batch.successful_buckets@.len());
    assert forall|j: int| 0 <= j < decoded.len() implies {
        let success = batch.successful_buckets@[j];
        &&& success.depth == requests[#[trigger] decoded[j]].depth
        &&& success.prefix == requests[decoded[j]].prefix
        &&& outcomes[decoded[j]] matches Ok(roots) && success.roots@ == roots@
    } by {
        assert(views[j] == success_view(batch.successful_buckets@[j]));
    }
    assert(ascending(decoded, n as int));
    assert(ascending(failed, n as int));
}

/// The bytes of a batch are those of its buckets one behind the other: eight for each
/// element asked for, least significant byte first.
pub proof fn coordinates_by_bytes(
    encoded: Seq<u8>,
    requests: Seq<BucketRequest>,
    i: int,
    j: int,
)
    requires
        0 <= i < requests.len(),
        0 <= j < requests[i].capacity,
        8 * capacity_sum(requests.take(i + 1)) <= encoded.len(),
    ensures
        bucket_coordinates(encoded, requests, i).len() == requests[i].capacity,
        ({
            let start = 8 * (capacity_sum(requests.take(i)) + j);
            bucket_coordinates(encoded, requests, i)[j] == le_value(
                encoded.subrange(start, start + 8),
            )
        }),
{
    capacity_sum_total(requests, i as nat);
    capacity_sum_total(requests, (i + 1) as nat);
    let capacity = requests[i].capacity;
    let from = 8 * total_capacity(requests, i as nat);
    let bytes = encoded.subrange(from as int, from + 8 * capacity);
    let chunk = bytes.subrange(8 * j, 8 * j + 8);
    assert(bucket_coordinates(encoded, requests, i) == parsed_coordinates(bytes, capacity as nat));
    assert(chunk =~= encoded.subrange(from + 8 * j, from + 8 * j + 8));
    le_bytes_of_value(chunk);
    byte_range_values();
}

/// A batch is decoded in full only where its bytes are as many as its requests ask for,
/// and a wrong number of bytes is never accepted.
pub proof fn batch_by_length(
    encoded: Seq<u8>,
    requests: Seq<BucketRequest>,
    outcomes: Seq<Result<Vec<u64>, AlgebraicError>>,
    result: Result<BucketDecodeBatch, AlgebraicError>,
)
    requires
        batch_ends(encoded, requests, outcomes, result),
    ensures
        result is Ok ==> encoded.len() == 8 * capacity_sum(requests) && outcomes.len()
            == requests.len(),
        result == Err::<BucketDecodeBatch, AlgebraicError>(AlgebraicError::InvalidSketchLength)
            ==> encoded.len() != 8 * capacity_sum(requests),
        encoded.len() != 8 * capacity_sum(requests) ==> result == Err::<
            BucketDecodeBatch,
            AlgebraicError,
        >(AlgebraicError::InvalidSketchLength) || result == Err::<
            BucketDecodeBatch,
            AlgebraicError,
        >(AlgebraicError::BudgetExhausted),
{
    let n = requests.len();
    capacity_sum_total(requests, n);
    assert(requests.take(n as int) =~= requests);
    if outcomes.len() < n {
        total_capacity_monotone(requests, outcomes.len() + 1, n);
    }
}

} // verus!
