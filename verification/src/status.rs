//! The error value that rows and sources carry: `tonic::Status`, held opaque.

use vstd::prelude::*;

verus! {

/// `tonic::Status`, carried through as it is: nothing inside it is read.
#[verifier::external_type_specification]
#[verifier::external_body]
pub struct ExStatus(tonic::Status);

/// The status that `tonic::Status::invalid_argument` makes of a message.
pub uninterp spec fn invalid_argument_status(message: Seq<char>) -> tonic::Status;

/// The status that `tonic::Status::internal` makes of a message.
pub uninterp spec fn internal_status(message: Seq<char>) -> tonic::Status;

/// Calls `tonic::Status::invalid_argument`, which builds a status from the
/// code `InvalidArgument` and the message alone; the contract names that value.
#[verifier::external_body]
pub(crate) fn status_invalid_argument(message: &str) -> (s: tonic::Status)
    ensures
        s == invalid_argument_status(message@),
{
    tonic::Status::invalid_argument(message)
}

/// Calls `tonic::Status::internal`, which builds a status from the code
/// `Internal` and the message alone; the contract names that value.
#[verifier::external_body]
pub(crate) fn status_internal(message: &str) -> (s: tonic::Status)
    ensures
        s == internal_status(message@),
{
    tonic::Status::internal(message)
}

} // verus!
