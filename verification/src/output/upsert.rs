//! The interface of a service that upserts rows into a bucket.

use tonic::Status;
use vstd::prelude::*;

verus! {

/// Writes rows into a bucket, each over the row of the same key if there is
/// one, and returns how many rows were written.
pub trait Upsert {
    type Row;

    type Bucket;

    fn upsert(&self, bucket: Self::Bucket, rows: Vec<Result<Self::Row, Status>>) -> Result<
        u64,
        Status,
    >;
}

} // verus!
