//! What a merge of two keyed sources is made of.

use tonic::Status;
use vstd::prelude::*;

verus! {

/// A merger which tries to make a merged value of two inputs.
pub trait Merge {
    type A;

    type B;

    type T;

    fn merge(&self, a: Self::A, b: Self::B) -> Result<Self::T, Status>;
}

/// A source of key/value pairs to be merged with another by key.
pub trait MergeSource {
    type K;

    type V;

    fn all(&self) -> Result<Vec<Result<(Self::K, Self::V), Status>>, Status>;
}

} // verus!
