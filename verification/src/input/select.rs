//! The interface of a service that selects the rows of a bucket.

use tonic::Status;
use vstd::prelude::*;

verus! {

/// Selects all rows of a bucket. The call itself may fail; a row that could
/// not be had stands in the sequence as an error.
pub trait Select {
    type Bucket;

    type Row;

    fn all(&self, b: Self::Bucket) -> Result<Vec<Result<Self::Row, Status>>, Status>;
}

} // verus!
