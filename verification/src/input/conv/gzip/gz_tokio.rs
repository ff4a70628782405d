//! A source of bytes whose buckets are those of another, gunzipped.

use async_compression::tokio::bufread::GzipDecoder;
use tonic::Status;
use vstd::prelude::*;
use vstd::string::StringExecFns;

use crate::input::conv::lines::ReadSource;
use crate::status::{internal_status, status_internal};

verus! {

/// What gzipped bytes decode to, where they decode at all: the bytes that
/// `async_compression`'s `GzipDecoder` gives when it is read to the end.
pub uninterp spec fn gunzipped(encoded: Seq<u8>) -> Option<Seq<u8>>;

/// Reads `async_compression::tokio::bufread::GzipDecoder` over the bytes to
/// its end, with tokio's `read_to_end`, polled once by futures'
/// `now_or_never`: over bytes in memory the decoder never waits, so the
/// one poll gives the outcome. What comes out depends on the bytes alone:
/// the decoded bytes, or the error at which the decoder gave up.
#[verifier::external_body]
fn gunzip(encoded: &[u8]) -> (r: Result<Vec<u8>, std::io::Error>)
    ensures
        match r {
            Ok(decoded) => gunzipped(encoded@) == Some(decoded@),
            Err(_) => gunzipped(encoded@) is None,
        },
{
    let mut decoder = Box::pin(GzipDecoder::new(encoded));
    let mut decoded: Vec<u8> = Vec::new();
    let read = tokio::io::AsyncReadExt::read_to_end(&mut decoder, &mut decoded);
    match futures::FutureExt::now_or_never(read) {
        Some(Ok(_)) => Ok(decoded),
        Some(Err(e)) => Err(e),
        None => Err(std::io::Error::from(std::io::ErrorKind::WouldBlock)),
    }
}

/// `out` is what reading decoded bytes comes to: the bytes, or, where the
/// decoder gave up, an internal error that says so.
pub open spec fn read_of(decoded: Result<Vec<u8>, std::io::Error>, out: Result<Vec<u8>, Status>) -> bool {
    match decoded {
        Ok(bytes) => out == Ok::<Vec<u8>, Status>(bytes),
        Err(_) => exists|text: Seq<char>|
            #![trigger internal_status("unable to get a line: "@ + text)]
            out == Err::<Vec<u8>, Status>(internal_status("unable to get a line: "@ + text)),
    }
}

/// Takes the outcome of decoding as the outcome of reading a bucket.
pub fn read_decoded(decoded: Result<Vec<u8>, std::io::Error>) -> (out: Result<Vec<u8>, Status>)
    ensures
        read_of(decoded, out),
{
    match decoded {
        Ok(bytes) => Ok(bytes),
        Err(e) => {
            let text = e.to_string();
            let message = String::from_str("unable to get a line: ").concat(text.as_str());
            Err(status_internal(message.as_str()))
        },
    }
}

/// `out` is `encoded` decoded: the decoded bytes, or an internal error where
/// the bytes are no gzip.
pub open spec fn decoded_of(encoded: Seq<u8>, out: Result<Vec<u8>, Status>) -> bool {
    match gunzipped(encoded) {
        Some(bytes) => out is Ok && out->Ok_0@ == bytes,
        None => exists|text: Seq<char>|
            #![trigger internal_status("unable to get a line: "@ + text)]
            out == Err::<Vec<u8>, Status>(internal_status("unable to get a line: "@ + text)),
    }
}

/// Decodes gzipped bytes.
pub fn decode(encoded: &[u8]) -> (out: Result<Vec<u8>, Status>)
    ensures
        decoded_of(encoded@, out),
{
    read_decoded(gunzip(encoded))
}

/// A source of bytes that decodes the gzipped buckets of another.
pub struct GzipDecodedSrc<R> {
    encoded: R,
}

impl<R> GzipDecodedSrc<R> where R: ReadSource {
    /// The source of the gzipped bytes.
    pub closed spec fn encoded(&self) -> R {
        self.encoded
    }

    /// `r` answers a request for `b`: the source's failure, or its bytes
    /// decoded.
    pub open spec fn answers(&self, b: R::Bucket, r: Result<Vec<u8>, Status>) -> bool {
        exists|inner: Result<Vec<u8>, Status>|
            #![trigger call_ensures(R::get_src_read_by_bucket, (&self.encoded(), b), inner)]
            call_ensures(R::get_src_read_by_bucket, (&self.encoded(), b), inner) && match inner {
                Err(e) => r == Err::<Vec<u8>, Status>(e),
                Ok(bytes) => decoded_of(bytes@, r),
            }
    }
}

impl<R> ReadSource for GzipDecodedSrc<R> where R: ReadSource {
    type Bucket = R::Bucket;

    /// Gets the bytes of the bucket and decodes them.
    fn get_src_read_by_bucket(&self, b: Self::Bucket) -> (r: Result<Vec<u8>, Status>)
        ensures
            self.answers(b, r),
    {
        match self.encoded.get_src_read_by_bucket(b) {
            Err(e) => Err(e),
            Ok(bytes) => decode(bytes.as_slice()),
        }
    }
}

/// Creates a source of bytes from a source of gzipped bytes.
pub fn read_src_gzip_decoded_new<R>(encoded: R) -> (r: GzipDecodedSrc<R>) where R: ReadSource
    ensures
        r.encoded() == encoded,
{
    GzipDecodedSrc { encoded }
}

} // verus!
