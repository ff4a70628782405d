//! Messages of the side that holds the rows to be moved: its select service
//! and its checked-drop service.

use vstd::prelude::*;

verus! {

/// The name of a bucket of the source.
#[derive(Debug, PartialEq, Eq)]
pub struct InputBucket {
    pub bucket: Vec<u8>,
}

impl View for InputBucket {
    type V = Seq<u8>;

    open spec fn view(&self) -> Seq<u8> {
        self.bucket@
    }
}

impl Clone for InputBucket {
    fn clone(&self) -> (r: Self)
        ensures
            r@ == self@,
    {
        InputBucket { bucket: self.bucket.clone() }
    }
}

/// Asks for every row of a bucket.
#[derive(Debug, PartialEq, Eq)]
pub struct AllRequest {
    pub bkt: Option<InputBucket>,
}

/// One row of a bucket.
#[derive(Debug, PartialEq, Eq)]
pub struct AllResponse {
    pub key: Vec<u8>,
    pub val: Vec<u8>,
}

/// Asks to delete the row of a key, if the check-token is the one that the
/// holder of the row has for it.
#[derive(Debug, PartialEq, Eq)]
pub struct CheckedRequest {
    pub bkt: Option<InputBucket>,
    pub key: Vec<u8>,
    pub check: Vec<u8>,
}

/// Tells how many rows were deleted.
#[derive(Debug, PartialEq, Eq)]
pub struct CheckedResponse {
    pub keys_count: u64,
}

} // verus!
