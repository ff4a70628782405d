//! What a select client of the source asks for.

use vstd::prelude::*;

use crate::rpc::source::{AllRequest, InputBucket};

verus! {

/// The request for every row of the bucket of this name.
pub fn all_request(bucket: Vec<u8>) -> (req: AllRequest)
    ensures
        req == (AllRequest { bkt: Some(InputBucket { bucket }) }),
{
    AllRequest { bkt: Some(InputBucket { bucket }) }
}

} // verus!
