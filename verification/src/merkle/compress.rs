//! Compressed causal-trie proof paths: runs of empty siblings are collapsed.

use vstd::prelude::*;
use vstd::string::StringExecFns;
use super::causal::{
    absence_proved, climbs_to, step_contents, verify_causal_inclusion, verify_causal_non_inclusion,
    CausalProofStep, CAUSAL_DEPTH,
};
use super::trie::{causal_leaf_digest, empty_digest, empty_table};
use crate::hamt::hash::same_hash;
use crate::text::{decimal, push_decimal};

verus! {

/// A single step in a compressed causal-trie proof path.
///
/// Runs of consecutive canonical-empty siblings are collapsed into a single
/// `EmptyRun` entry; non-empty steps are emitted individually as `Step`.
#[derive(Debug, Clone, PartialEq, Eq)]
pub enum CompressedCausalStep {
    /// A non-empty sibling step (hash and count are explicit).
    Step(CausalProofStep),
    /// A run of `length` consecutive canonical-empty siblings. `start_depth` is
    /// the sibling depth of the first empty step in the run; expansion proceeds
    /// towards the root, one depth less with each step.
    EmptyRun { start_depth: u16, length: u16 },
}

/// Error type for compressed causal-trie proof operations.
#[derive(Debug, Clone, PartialEq, Eq, Structural)]
pub enum CausalProofError {
    /// A compressed step references a sibling depth outside `1..=256`, or the
    /// terminal depth itself exceeds 256.
    InvalidDepth(u16),
    /// The decompressed path length does not match the terminal depth.
    PathLengthMismatch { decompressed: usize, expected: usize },
    /// The compressed encoding is truncated.
    Truncated,
    /// The compressed encoding has data after the complete path.
    ExcessData,
    /// An empty run would extend below sibling depth 1.
    RunBelowRoot,
    /// An empty run's start depth does not match the expected sibling depth for
    /// the current path position.
    NonContiguousRun { expected_sibling_depth: usize, actual_start: usize },
    /// Two consecutive `EmptyRun` entries: the second is redundant because the
    /// first could have been extended to cover the same range.
    NonMaximalRun,
    /// A `Step` entry that carries the canonical empty subtree at its depth,
    /// which the compressor would have collapsed into an `EmptyRun`.
    NonCanonicalStep,
}

impl CausalProofError {
    /// The error as text.
    pub fn message(&self) -> (text: String)
        ensures
            text@ == match *self {
                CausalProofError::InvalidDepth(depth) => "causal proof: invalid depth "@ + decimal(
                    depth as nat,
                ),
                CausalProofError::PathLengthMismatch { decompressed, expected } =>
                "causal proof: decompressed path length "@ + decimal(decompressed as nat)
                    + " does not match terminal depth "@ + decimal(expected as nat),
                CausalProofError::Truncated => "causal proof: truncated compressed encoding"@,
                CausalProofError::ExcessData => "causal proof: excess data after path"@,
                CausalProofError::RunBelowRoot =>
                "causal proof: empty run extends below sibling depth 1"@,
                CausalProofError::NonContiguousRun { expected_sibling_depth, actual_start } =>
                "causal proof: empty run starts at sibling depth "@ + decimal(actual_start as nat)
                    + ", expected "@ + decimal(expected_sibling_depth as nat),
                CausalProofError::NonMaximalRun =>
                "causal proof: consecutive empty runs must be merged"@,
                CausalProofError::NonCanonicalStep =>
                "causal proof: step carries canonical-empty value; use EmptyRun instead"@,
            },
    {
        match self {
            CausalProofError::InvalidDepth(depth) => {
                let mut text: String = String::from_str("causal proof: invalid depth ");
                push_decimal(&mut text, *depth as u64);
                text
            },
            CausalProofError::PathLengthMismatch { decompressed, expected } => {
                let mut text: String = String::from_str("causal proof: decompressed path length ");
                push_decimal(&mut text, *decompressed as u64);
                text.append(" does not match terminal depth ");
                push_decimal(&mut text, *expected as u64);
                text
            },
            CausalProofError::Truncated => String::from_str(
                "causal proof: truncated compressed encoding",
            ),
            CausalProofError::ExcessData => String::from_str(
                "causal proof: excess data after path",
            ),
            CausalProofError::RunBelowRoot => String::from_str(
                "causal proof: empty run extends below sibling depth 1",
            ),
            CausalProofError::NonContiguousRun { expected_sibling_depth, actual_start } => {
                let mut text: String = String::from_str(
                    "causal proof: empty run starts at sibling depth ",
                );
                push_decimal(&mut text, *actual_start as u64);
                text.append(", expected ");
                push_decimal(&mut text, *expected_sibling_depth as u64);
                text
            },
            CausalProofError::NonMaximalRun => String::from_str(
                "causal proof: consecutive empty runs must be merged",
            ),
            CausalProofError::NonCanonicalStep => String::from_str(
                "causal proof: step carries canonical-empty value; use EmptyRun instead",
            ),
        }
    }
}

/// A compressed step by its contents.
pub enum Packed {
    Step(Seq<u8>, nat),
    Run(nat, nat),
}

/// The contents of a compressed step.
pub open spec fn packed_step(step: CompressedCausalStep) -> Packed {
    match step {
        CompressedCausalStep::Step(step) => Packed::Step(step.hash@, step.count as nat),
        CompressedCausalStep::EmptyRun { start_depth, length } => Packed::Run(
            start_depth as nat,
            length as nat,
        ),
    }
}

/// The contents of compressed steps.
pub open spec fn packed_steps(steps: Seq<CompressedCausalStep>) -> Seq<Packed> {
    Seq::new(steps.len(), |i: int| packed_step(steps[i]))
}

/// The sibling depth of a step.
pub open spec fn sibling_depth(terminal_depth: nat, index: int) -> nat {
    if index <= terminal_depth {
        (terminal_depth - index) as nat
    } else {
        0
    }
}

/// A step carries the canonical empty subtree of its depth.
pub open spec fn empty_step(step: (Seq<u8>, nat), depth: nat) -> bool {
    step.1 == 0 && depth <= 256 && step.0 == empty_digest(depth)
}

/// A run that is open grows by one, up to the limit of its field.
pub open spec fn longer(run: Option<(nat, nat)>, depth: nat) -> Option<(nat, nat)> {
    match run {
        Some((start, length)) => Some(
            (
                start,
                if length < 65535 {
                    length + 1
                } else {
                    65535
                },
            ),
        ),
        None => Some((depth, 1)),
    }
}

/// Closes a run that is open.
pub open spec fn flushed(packed: (Seq<Packed>, Option<(nat, nat)>)) -> Seq<Packed> {
    match packed.1 {
        Some((start, length)) => packed.0.push(Packed::Run(start, length)),
        None => packed.0,
    }
}

/// The first steps of a path compressed, with the run that is open.
pub open spec fn packing(
    terminal_depth: nat,
    path: Seq<(Seq<u8>, nat)>,
    n: nat,
) -> (Seq<Packed>, Option<(nat, nat)>)
    decreases n,
{
    if n == 0 {
        (Seq::empty(), None)
    } else {
        let before = packing(terminal_depth, path, (n - 1) as nat);
        let step = path[n - 1];
        let depth = sibling_depth(terminal_depth, n - 1);
        if empty_step(step, depth) {
            (before.0, longer(before.1, depth))
        } else {
            (flushed(before).push(Packed::Step(step.0, step.1)), None)
        }
    }
}

/// A path compressed.
pub open spec fn compressed_path(terminal_depth: nat, path: Seq<(Seq<u8>, nat)>) -> Seq<Packed> {
    flushed(packing(terminal_depth, path, path.len()))
}

fn saturated_depth(depth: usize) -> (result: u16)
    ensures
        result == if depth < 65535 {
            depth as int
        } else {
            65535
        },
{
    if depth < 65535 {
        depth as u16
    } else {
        65535
    }
}

fn push_run(out: &mut Vec<CompressedCausalStep>, start: usize, length: u16)
    requires
        start <= 256,
    ensures
        packed_steps(final(out)@) == packed_steps(old(out)@).push(
            Packed::Run(start as nat, length as nat),
        ),
{
    let ghost before = packed_steps(out@);
    out.push(CompressedCausalStep::EmptyRun { start_depth: start as u16, length });
    proof {
        assert(packed_steps(out@) =~= before.push(Packed::Run(start as nat, length as nat)));
    }
}

/// Compresses a causal-trie proof path by collapsing runs of consecutive
/// canonical-empty siblings into `EmptyRun` entries.
///
/// The step at position `i` in `path` carries the sibling subtree rooted at depth
/// `terminal_depth - i`. A step is canonical-empty when its hash is that of the
/// empty subtree at this depth and its count is 0.
#[must_use]
pub fn compress_causal_path(terminal_depth: usize, path: &[CausalProofStep]) -> (out: Vec<
    CompressedCausalStep,
>)
    ensures
        packed_steps(out@) == compressed_path(terminal_depth as nat, step_contents(path@)),
{
    let empty: Vec<[u8; 32]> = empty_table();
    let ghost steps = step_contents(path@);
    let mut out: Vec<CompressedCausalStep> = Vec::new();
    let mut run_start: Option<usize> = None;
    let mut run_length: u16 = 0;
    let mut index: usize = 0;
    proof {
        assert(packed_steps(out@) =~= Seq::<Packed>::empty());
    }
    while index < path.len()
        invariant
            index <= path.len(),
            steps == step_contents(path@),
            empty@.len() == 257,
            forall|d: int| 0 <= d <= 256 ==> (#[trigger] empty@[d])@ == empty_digest(d as nat),
            run_start matches Some(start) ==> start <= 256,
            packing(terminal_depth as nat, steps, index as nat) == (
                packed_steps(out@),
                match run_start {
                    Some(start) => Some((start as nat, run_length as nat)),
                    None => None::<(nat, nat)>,
                },
            ),
        decreases path.len() - index,
    {
        let step: CausalProofStep = path[index];
        let depth: usize = if index <= terminal_depth {
            terminal_depth - index
        } else {
            0
        };
        proof {
            assert(steps[index as int] == (step.hash@, step.count as nat));
        }
        if step.count == 0 && depth < empty.len() && same_hash(&step.hash, &empty[depth]) {
            match run_start {
                Some(_) => {
                    if run_length < 65535 {
                        run_length = run_length + 1;
                    }
                },
                None => {
                    run_start = Some(depth);
                    run_length = 1;
                },
            }
        } else {
            match run_start {
                Some(start) => {
                    push_run(&mut out, start, run_length);
                    run_start = None;
                    run_length = 0;
                },
                None => {},
            }
            let ghost before = packed_steps(out@);
            out.push(CompressedCausalStep::Step(step));
            proof {
                assert(packed_steps(out@) =~= before.push(
                    Packed::Step(step.hash@, step.count as nat),
                ));
            }
        }
        index = index + 1;
    }
    match run_start {
        Some(start) => {
            push_run(&mut out, start, run_length);
        },
        None => {},
    }
    out
}

/// The steps of a run.
pub open spec fn run_steps(start: nat, length: nat) -> Seq<(Seq<u8>, nat)> {
    Seq::new(length, |j: int| (empty_digest((start - j) as nat), 0nat))
}

/// What one compressed step does to the path so far and to the note whether a
/// run came last.
pub open spec fn unpack_step(
    terminal_depth: nat,
    so_far: (Seq<(Seq<u8>, nat)>, bool),
    step: Packed,
) -> Result<(Seq<(Seq<u8>, nat)>, bool), CausalProofError> {
    let (out, after_run) = so_far;
    let expected = sibling_depth(terminal_depth, out.len() as int);
    match step {
        Packed::Step(hash, count) => if out.len() >= terminal_depth {
            Err(CausalProofError::ExcessData)
        } else if empty_step((hash, count), expected) {
            Err(CausalProofError::NonCanonicalStep)
        } else {
            Ok((out.push((hash, count)), false))
        },
        Packed::Run(start, length) => if after_run {
            Err(CausalProofError::NonMaximalRun)
        } else if length == 0 {
            Err(CausalProofError::Truncated)
        } else if start == 0 || start > 256 {
            Err(CausalProofError::InvalidDepth(start as u16))
        } else if length > start {
            Err(CausalProofError::RunBelowRoot)
        } else if start != expected {
            Err(
                CausalProofError::NonContiguousRun {
                    expected_sibling_depth: expected as usize,
                    actual_start: start as usize,
                },
            )
        } else {
            Ok((out + run_steps(start, length), true))
        },
    }
}

/// The path that the first compressed steps give, or the first error.
pub open spec fn unpacking(terminal_depth: nat, steps: Seq<Packed>, n: nat) -> Result<
    (Seq<(Seq<u8>, nat)>, bool),
    CausalProofError,
>
    decreases n,
{
    if n == 0 {
        Ok((Seq::empty(), false))
    } else {
        match unpacking(terminal_depth, steps, (n - 1) as nat) {
            Ok(so_far) => unpack_step(terminal_depth, so_far, steps[n - 1]),
            Err(error) => Err(error),
        }
    }
}

/// What decompressing a path gives.
pub open spec fn decompressed_path(terminal_depth: nat, steps: Seq<Packed>) -> Result<
    Seq<(Seq<u8>, nat)>,
    CausalProofError,
> {
    if terminal_depth > 256 {
        Err(
            CausalProofError::InvalidDepth(
                if terminal_depth < 65535 {
                    terminal_depth as u16
                } else {
                    65535u16
                },
            ),
        )
    } else {
        match unpacking(terminal_depth, steps, steps.len()) {
            Ok((out, _)) => if out.len() != terminal_depth {
                Err(
                    CausalProofError::PathLengthMismatch {
                        decompressed: out.len() as usize,
                        expected: terminal_depth as usize,
                    },
                )
            } else {
                Ok(out)
            },
            Err(error) => Err(error),
        }
    }
}

proof fn unpacking_fails(terminal_depth: nat, steps: Seq<Packed>, n: nat, m: nat)
    requires
        n <= m,
        unpacking(terminal_depth, steps, n) is Err,
    ensures
        unpacking(terminal_depth, steps, m) == unpacking(terminal_depth, steps, n),
    decreases m,
{
    if n < m {
        unpacking_fails(terminal_depth, steps, n, (m - 1) as nat);
    }
}

/// Decompresses a compressed causal-trie proof path, validating that every
/// `EmptyRun` stands where it belongs.
///
/// # Errors
/// Returns a `CausalProofError` if the compressed encoding is malformed,
/// non-canonical, or has the wrong total length.
pub fn decompress_causal_path(terminal_depth: usize, compressed: &[CompressedCausalStep]) -> (result:
    Result<Vec<CausalProofStep>, CausalProofError>)
    ensures
        match result {
            Ok(path) => decompressed_path(terminal_depth as nat, packed_steps(compressed@)) == Ok::<
                Seq<(Seq<u8>, nat)>,
                CausalProofError,
            >(step_contents(path@)),
            Err(error) => decompressed_path(terminal_depth as nat, packed_steps(compressed@))
                == Err::<Seq<(Seq<u8>, nat)>, CausalProofError>(error),
        },
{
    if terminal_depth > CAUSAL_DEPTH {
        return Err(CausalProofError::InvalidDepth(saturated_depth(terminal_depth)));
    }
    let empty: Vec<[u8; 32]> = empty_table();
    let ghost steps = packed_steps(compressed@);
    let ghost t = terminal_depth as nat;
    let mut out: Vec<CausalProofStep> = Vec::new();
    let mut after_run: bool = false;
    let mut index: usize = 0;
    proof {
        assert(step_contents(out@) =~= Seq::<(Seq<u8>, nat)>::empty());
    }
    while index < compressed.len()
        invariant
            index <= compressed.len(),
            t == terminal_depth,
            terminal_depth <= 256,
            steps == packed_steps(compressed@),
            empty@.len() == 257,
            forall|d: int| 0 <= d <= 256 ==> (#[trigger] empty@[d])@ == empty_digest(d as nat),
            out@.len() <= terminal_depth,
            unpacking(t, steps, index as nat) == Ok::<_, CausalProofError>(
                (step_contents(out@), after_run),
            ),
        decreases compressed.len() - index,
    {
        let ghost before = step_contents(out@);
        let expected: usize = terminal_depth - out.len();
        let ghost next = unpacking(t, steps, (index + 1) as nat);
        proof {
            assert(steps[index as int] == packed_step(compressed@[index as int]));
            assert(next == unpack_step(t, (before, after_run), steps[index as int]));
            if next is Err {
                unpacking_fails(t, steps, (index + 1) as nat, steps.len());
            }
        }
        match &compressed[index] {
            CompressedCausalStep::Step(step) => {
                if out.len() >= terminal_depth {
                    return Err(CausalProofError::ExcessData);
                }
                if step.count == 0 && same_hash(&step.hash, &empty[expected]) {
                    return Err(CausalProofError::NonCanonicalStep);
                }
                after_run = false;
                out.push(*step);
                proof {
                    assert(step_contents(out@) =~= before.push((step.hash@, step.count as nat)));
                }
            },
            CompressedCausalStep::EmptyRun { start_depth, length } => {
                if after_run {
                    return Err(CausalProofError::NonMaximalRun);
                }
                let start: usize = *start_depth as usize;
                let len: usize = *length as usize;
                if len == 0 {
                    return Err(CausalProofError::Truncated);
                }
                if start == 0 || start > CAUSAL_DEPTH {
                    return Err(CausalProofError::InvalidDepth(*start_depth));
                }
                if len > start {
                    return Err(CausalProofError::RunBelowRoot);
                }
                if start != expected {
                    return Err(
                        CausalProofError::NonContiguousRun {
                            expected_sibling_depth: expected,
                            actual_start: start,
                        },
                    );
                }
                let mut j: usize = 0;
                proof {
                    assert(step_contents(out@) =~= before + run_steps(start as nat, 0));
                }
                while j < len
                    invariant
                        j <= len <= start <= 256,
                        empty@.len() == 257,
                        forall|d: int|
                            0 <= d <= 256 ==> (#[trigger] empty@[d])@ == empty_digest(d as nat),
                        out@.len() == before.len() + j,
                        step_contents(out@) =~= before + run_steps(start as nat, j as nat),
                    decreases len - j,
                {
                    let ghost held = step_contents(out@);
                    out.push(CausalProofStep { hash: empty[start - j], count: 0 });
                    proof {
                        let step = (empty_digest((start - j) as nat), 0nat);
                        assert(step_contents(out@) =~= held.push(step));
                        assert(run_steps(start as nat, (j + 1) as nat) =~= run_steps(
                            start as nat,
                            j as nat,
                        ).push(step));
                    }
                    j = j + 1;
                }
                after_run = true;
            },
        }
        index = index + 1;
    }
    if out.len() != terminal_depth {
        return Err(
            CausalProofError::PathLengthMismatch {
                decompressed: out.len(),
                expected: terminal_depth,
            },
        );
    }
    Ok(out)
}

/// Verifies an inclusion proof encoded with empty-run compression.
///
/// # Errors
/// Returns a `CausalProofError` if decompression or validation fails.
pub fn verify_causal_inclusion_compressed(
    key: &[u8; 32],
    compressed: &[CompressedCausalStep],
    root: [u8; 32],
    count: u64,
) -> (result: Result<bool, CausalProofError>)
    ensures
        match decompressed_path(256, packed_steps(compressed@)) {
            Ok(path) => result == Ok::<bool, CausalProofError>(
                climbs_to(
                    (causal_leaf_digest(key@), 1),
                    256,
                    key@,
                    path,
                    (root@, count as nat),
                ),
            ),
            Err(error) => result == Err::<bool, CausalProofError>(error),
        },
{
    match decompress_causal_path(CAUSAL_DEPTH, compressed) {
        Ok(path) => Ok(verify_causal_inclusion(key, path.as_slice(), root, count)),
        Err(error) => Err(error),
    }
}

/// Verifies a non-inclusion proof encoded with empty-run compression.
///
/// # Errors
/// Returns a `CausalProofError` if decompression or validation fails.
pub fn verify_causal_non_inclusion_compressed(
    key: &[u8; 32],
    terminal_depth: usize,
    compressed: &[CompressedCausalStep],
    root: [u8; 32],
    count: u64,
) -> (result: Result<bool, CausalProofError>)
    ensures
        match decompressed_path(terminal_depth as nat, packed_steps(compressed@)) {
            Ok(path) => result == Ok::<bool, CausalProofError>(
                absence_proved(key@, terminal_depth as nat, path, (root@, count as nat)),
            ),
            Err(error) => result == Err::<bool, CausalProofError>(error),
        },
{
    match decompress_causal_path(terminal_depth, compressed) {
        Ok(path) => Ok(
            verify_causal_non_inclusion(key, terminal_depth, path.as_slice(), root, count),
        ),
        Err(error) => Err(error),
    }
}

proof fn unpacking_prefix(terminal_depth: nat, steps: Seq<Packed>, step: Packed, n: nat)
    requires
        n <= steps.len(),
    ensures
        unpacking(terminal_depth, steps.push(step), n) == unpacking(terminal_depth, steps, n),
    decreases n,
{
    if n > 0 {
        unpacking_prefix(terminal_depth, steps, step, (n - 1) as nat);
        assert(steps.push(step)[n - 1] == steps[n - 1]);
    }
}

/// One more compressed step.
proof fn unpacking_push(terminal_depth: nat, steps: Seq<Packed>, step: Packed)
    ensures
        unpacking(terminal_depth, steps.push(step), steps.len() + 1) == match unpacking(
            terminal_depth,
            steps,
            steps.len(),
        ) {
            Ok(so_far) => unpack_step(terminal_depth, so_far, step),
            Err(error) => Err(error),
        },
{
    unpacking_prefix(terminal_depth, steps, step, steps.len());
    assert(steps.push(step)[steps.len() as int] == step);
}

/// The steps of a path before the run that is open are unpacked, and the run
/// covers the others.
proof fn packing_unpacks(terminal_depth: nat, path: Seq<(Seq<u8>, nat)>, n: nat)
    requires
        terminal_depth <= 256,
        path.len() == terminal_depth,
        n <= path.len(),
    ensures
        ({
            let (packed, run) = packing(terminal_depth, path, n);
            match run {
                Some((start, length)) => {
                    &&& 1 <= length <= n
                    &&& start == terminal_depth - (n - length)
                    &&& path.take(n as int) == path.take(n - length) + run_steps(start, length)
                    &&& unpacking(terminal_depth, packed, packed.len()) == Ok::<_, CausalProofError>(
                        (path.take(n - length), false),
                    )
                },
                None => unpacking(terminal_depth, packed, packed.len()) == Ok::<_, CausalProofError>(
                    (path.take(n as int), false),
                ),
            }
        }),
    decreases n,
{
    if n == 0 {
        assert(path.take(0) =~= Seq::empty());
    } else {
        let m = (n - 1) as nat;
        packing_unpacks(terminal_depth, path, m);
        let (before, run) = packing(terminal_depth, path, m);
        let step = path[n - 1];
        let depth = sibling_depth(terminal_depth, n - 1);
        assert(path.take(n as int) =~= path.take(n - 1).push(step));
        if empty_step(step, depth) {
            match run {
                Some((start, length)) => {
                    assert(run_steps(start, length + 1) =~= run_steps(start, length).push(step));
                    assert(path.take(n as int) =~= path.take(m - length) + run_steps(
                        start,
                        length + 1,
                    ));
                },
                None => {
                    assert(path.take(n as int) =~= path.take(n - 1) + run_steps(depth, 1));
                },
            }
        } else {
            match run {
                Some((start, length)) => {
                    unpacking_push(terminal_depth, before, Packed::Run(start, length));
                    let closed = before.push(Packed::Run(start, length));
                    unpacking_push(terminal_depth, closed, Packed::Step(step.0, step.1));
                    assert(unpacking(terminal_depth, closed, closed.len()) == Ok::<
                        _,
                        CausalProofError,
                    >((path.take(n - 1), true)));
                },
                None => {
                    unpacking_push(terminal_depth, before, Packed::Step(step.0, step.1));
                },
            }
        }
    }
}

/// Decompressing a compressed path gives the path back.
pub proof fn decompress_compressed(terminal_depth: nat, path: Seq<(Seq<u8>, nat)>)
    requires
        terminal_depth <= 256,
        path.len() == terminal_depth,
    ensures
        decompressed_path(terminal_depth, compressed_path(terminal_depth, path)) == Ok::<
            Seq<(Seq<u8>, nat)>,
            CausalProofError,
        >(path),
{
    packing_unpacks(terminal_depth, path, path.len());
    let (packed, run) = packing(terminal_depth, path, path.len());
    assert(path.take(path.len() as int) =~= path);
    match run {
        Some((start, length)) => {
            unpacking_push(terminal_depth, packed, Packed::Run(start, length));
        },
        None => {},
    }
}

proof fn packing_prefix(
    terminal_depth: nat,
    path: Seq<(Seq<u8>, nat)>,
    more: Seq<(Seq<u8>, nat)>,
    n: nat,
)
    requires
        n <= path.len(),
    ensures
        packing(terminal_depth, path + more, n) == packing(terminal_depth, path, n),
    decreases n,
{
    if n > 0 {
        packing_prefix(terminal_depth, path, more, (n - 1) as nat);
        assert((path + more)[n - 1] == path[n - 1]);
    }
}

/// Packing a run behind a path with no run open opens the run.
proof fn packing_run(
    terminal_depth: nat,
    path: Seq<(Seq<u8>, nat)>,
    start: nat,
    length: nat,
    j: nat,
)
    requires
        terminal_depth <= 256,
        packing(terminal_depth, path, path.len()).1 is None,
        path.len() + length <= terminal_depth,
        start == terminal_depth - path.len(),
        1 <= j <= length,
    ensures
        packing(terminal_depth, path + run_steps(start, length), path.len() + j) == (
            packing(terminal_depth, path, path.len()).0,
            Some((start, j)),
        ),
    decreases j,
{
    let all = path + run_steps(start, length);
    packing_prefix(terminal_depth, path, run_steps(start, length), path.len());
    if j > 1 {
        packing_run(terminal_depth, path, start, length, (j - 1) as nat);
    }
    let at = path.len() + j - 1;
    assert(all[at] == (empty_digest((start - (j - 1)) as nat), 0nat));
    assert(sibling_depth(terminal_depth, at) == start - (j - 1));
}

/// What the first compressed steps give packs into these steps.
proof fn unpacking_packs(terminal_depth: nat, steps: Seq<Packed>, n: nat)
    requires
        terminal_depth <= 256,
        n <= steps.len(),
        unpacking(terminal_depth, steps, n) is Ok,
    ensures
        ({
            let (out, after_run) = unpacking(terminal_depth, steps, n)->Ok_0;
            let packed = packing(terminal_depth, out, out.len());
            &&& out.len() <= terminal_depth
            &&& after_run == (packed.1 is Some)
            &&& flushed(packed) == steps.take(n as int)
        }),
    decreases n,
{
    if n == 0 {
        assert(steps.take(0) =~= Seq::empty());
    } else {
        let m = (n - 1) as nat;
        unpacking_packs(terminal_depth, steps, m);
        let (before, after_run) = unpacking(terminal_depth, steps, m)->Ok_0;
        let (out, _) = unpacking(terminal_depth, steps, n)->Ok_0;
        let packed = packing(terminal_depth, before, before.len());
        assert(steps.take(n as int) =~= steps.take(n - 1).push(steps[n - 1]));
        match steps[n - 1] {
            Packed::Step(hash, count) => {
                assert(out == before.push((hash, count)));
                assert(out =~= before + seq![(hash, count)]);
                packing_prefix(terminal_depth, before, seq![(hash, count)], before.len());
                assert(out[before.len() as int] == (hash, count));
            },
            Packed::Run(start, length) => {
                packing_run(terminal_depth, before, start, length, length);
                assert(out == before + run_steps(start, length));
                assert(out.len() == before.len() + length);
            },
        }
    }
}

/// Only the canonical encoding of a path is accepted: what decompresses to a
/// path is the compressed path.
pub proof fn compress_decompressed(
    terminal_depth: nat,
    steps: Seq<Packed>,
    path: Seq<(Seq<u8>, nat)>,
)
    requires
        decompressed_path(terminal_depth, steps) == Ok::<Seq<(Seq<u8>, nat)>, CausalProofError>(
            path,
        ),
    ensures
        compressed_path(terminal_depth, path) == steps,
{
    unpacking_packs(terminal_depth, steps, steps.len());
    assert(steps.take(steps.len() as int) =~= steps);
}

} // verus!
