//! How errors of the trie turn into each other and into text.

use vstd::prelude::*;
use vstd::string::StringExecFns;
use super::construct::HamtBuildError;
use super::mutate::HamtMutateError;
use super::walk::HamtTraversalError;
use crate::text::{decimal, push_decimal};

verus! {

impl HamtBuildError {
    /// The error as text.
    pub fn message(&self) -> (text: String)
        ensures
            match *self {
                HamtBuildError::HashCollision { depth, bucket_size } => text@
                    == "hamt build hash collision at depth "@ + decimal(depth as nat)
                    + " with bucket size "@ + decimal(bucket_size as nat),
            },
    {
        match self {
            HamtBuildError::HashCollision { depth, bucket_size } => {
                let mut text: String = String::from_str("hamt build hash collision at depth ");
                push_decimal(&mut text, *depth as u64);
                text.append(" with bucket size ");
                push_decimal(&mut text, *bucket_size as u64);
                text
            },
        }
    }
}

impl<E> HamtMutateError<E> {
    /// The error as text, with the text of the resolver's error.
    pub fn message<D: Fn(&E) -> String>(&self, describe: D) -> (text: String)
        requires
            forall|error: &E| #[trigger] call_requires(describe, (error,)),
        ensures
            match *self {
                HamtMutateError::HashCollision { depth, bucket_size } => text@
                    == "hamt mutation hash collision at depth "@ + decimal(depth as nat)
                    + " with bucket size "@ + decimal(bucket_size as nat),
                HamtMutateError::Resolve(error) => exists|cause: String| #[trigger]
                    call_ensures(describe, (&error,), cause) && text@
                        == "hamt mutation resolver failed: "@ + cause@,
                HamtMutateError::MaxDepthExceeded { depth } => text@
                    == "hamt mutation max depth exceeded at depth "@ + decimal(depth as nat),
            },
    {
        match self {
            HamtMutateError::HashCollision { depth, bucket_size } => {
                let mut text: String = String::from_str("hamt mutation hash collision at depth ");
                push_decimal(&mut text, *depth as u64);
                text.append(" with bucket size ");
                push_decimal(&mut text, *bucket_size as u64);
                text
            },
            HamtMutateError::Resolve(error) => {
                let cause: String = describe(error);
                let mut text: String = String::from_str("hamt mutation resolver failed: ");
                text.append(cause.as_str());
                text
            },
            HamtMutateError::MaxDepthExceeded { depth } => {
                let mut text: String = String::from_str(
                    "hamt mutation max depth exceeded at depth ",
                );
                push_decimal(&mut text, *depth as u64);
                text
            },
        }
    }
}

impl<E> HamtTraversalError<E> {
    /// The error as text, with the text of the resolver's error.
    pub fn message<D: Fn(&E) -> String>(&self, describe: D) -> (text: String)
        requires
            forall|error: &E| #[trigger] call_requires(describe, (error,)),
        ensures
            match *self {
                HamtTraversalError::Resolve(error) => exists|cause: String| #[trigger]
                    call_ensures(describe, (&error,), cause) && text@
                        == "hamt traversal resolver failed: "@ + cause@,
                HamtTraversalError::MaxDepthExceeded { depth } => text@
                    == "hamt traversal exceeded max depth at "@ + decimal(depth as nat),
            },
    {
        match self {
            HamtTraversalError::Resolve(error) => {
                let cause: String = describe(error);
                let mut text: String = String::from_str("hamt traversal resolver failed: ");
                text.append(cause.as_str());
                text
            },
            HamtTraversalError::MaxDepthExceeded { depth } => {
                let mut text: String = String::from_str("hamt traversal exceeded max depth at ");
                push_decimal(&mut text, *depth as u64);
                text
            },
        }
    }
}

/// A build error met in a mutation.
pub open spec fn mutation_of_build<E>(error: HamtBuildError) -> HamtMutateError<E> {
    match error {
        HamtBuildError::HashCollision { depth, bucket_size } => HamtMutateError::HashCollision {
            depth,
            bucket_size,
        },
    }
}

impl<E> From<HamtBuildError> for HamtMutateError<E> {
    fn from(error: HamtBuildError) -> (result: Self) {
        match error {
            HamtBuildError::HashCollision { depth, bucket_size } => {
                HamtMutateError::HashCollision { depth, bucket_size }
            },
        }
    }
}

impl<E> vstd::std_specs::convert::FromSpecImpl<HamtBuildError> for HamtMutateError<E> {
    open spec fn obeys_from_spec() -> bool {
        true
    }

    open spec fn from_spec(error: HamtBuildError) -> Self {
        mutation_of_build(error)
    }
}

impl<E> From<HamtTraversalError<E>> for HamtMutateError<E> {
    fn from(error: HamtTraversalError<E>) -> (result: Self) {
        match error {
            HamtTraversalError::Resolve(cause) => HamtMutateError::Resolve(cause),
            HamtTraversalError::MaxDepthExceeded { depth } => {
                HamtMutateError::MaxDepthExceeded { depth }
            },
        }
    }
}

impl<E> vstd::std_specs::convert::FromSpecImpl<HamtTraversalError<E>> for HamtMutateError<E> {
    open spec fn obeys_from_spec() -> bool {
        true
    }

    open spec fn from_spec(error: HamtTraversalError<E>) -> Self {
        match error {
            HamtTraversalError::Resolve(cause) => HamtMutateError::Resolve(cause),
            HamtTraversalError::MaxDepthExceeded { depth } => HamtMutateError::MaxDepthExceeded {
                depth,
            },
        }
    }
}

} // verus!
