//! Messages of the side that takes the rows: its upsert service, and its
//! select service, which tells the check-token of each row that it holds.

use vstd::prelude::*;

verus! {

/// The name of a bucket of the target.
#[derive(Debug, PartialEq, Eq)]
pub struct OutputBucket {
    pub bucket: Vec<u8>,
}

impl View for OutputBucket {
    type V = Seq<u8>;

    open spec fn view(&self) -> Seq<u8> {
        self.bucket@
    }
}

impl Clone for OutputBucket {
    fn clone(&self) -> (r: Self)
        ensures
            r@ == self@,
    {
        OutputBucket { bucket: self.bucket.clone() }
    }
}

/// Asks for the key and check-token of every row of a bucket.
#[derive(Debug, PartialEq, Eq)]
pub struct AllRequest {
    pub bkt: Option<OutputBucket>,
}

/// The key of one row, and the check-token that the target has for it.
#[derive(Debug, PartialEq, Eq)]
pub struct AllResponse {
    pub key: Vec<u8>,
    pub check: Vec<u8>,
}

/// Asks to write one row, over the row of the same key if there is one.
#[derive(Debug, PartialEq, Eq)]
pub struct ManyRequest {
    pub bkt: Option<OutputBucket>,
    pub key: Vec<u8>,
    pub val: Vec<u8>,
}

/// Tells how many rows were written.
#[derive(Debug, PartialEq, Eq)]
pub struct ManyResponse {
    pub upserted: u64,
}

} // verus!
