//! Rows made of the lines of a source of bytes: the key of a row is the
//! number of its line, the value the bytes of the line.

use tonic::Status;
use vstd::prelude::*;
use vstd::string::StringExecFns;

use crate::input::source::BucketSource;
use crate::status::{internal_status, status_internal};

verus! {

/// `std::io::Error`, carried through as it is: only its text is asked for.
#[verifier::external_type_specification]
#[verifier::external_body]
pub struct ExIoError(std::io::Error);

/// A source of buckets, each the bytes of one input.
pub trait ReadSource {
    type Bucket;

    fn get_src_read_by_bucket(&self, b: Self::Bucket) -> Result<Vec<u8>, Status>;
}

/// The length of the first line of `bytes`: the number of bytes before the
/// first line feed, or all of them where there is none.
pub open spec fn line_end(bytes: Seq<u8>) -> nat
    decreases bytes.len(),
{
    if bytes.len() == 0 || bytes[0] == 10 {
        0
    } else {
        line_end(bytes.drop_first()) + 1
    }
}

/// The lines of `bytes`: the runs of bytes between line feeds, without the
/// line feeds. Bytes after the last line feed are a line; no bytes after it
/// are none.
pub open spec fn lines_of(bytes: Seq<u8>) -> Seq<Seq<u8>>
    decreases bytes.len(),
{
    if bytes.len() == 0 {
        Seq::empty()
    } else {
        let n = line_end(bytes) as int;
        if n >= bytes.len() {
            seq![bytes]
        } else {
            seq![bytes.take(n)] + lines_of(bytes.skip(n + 1))
        }
    }
}

/// The first line ends where the first line feed stands.
pub proof fn lemma_line_end(bytes: Seq<u8>, k: int)
    requires
        0 <= k <= bytes.len(),
        forall|j: int| 0 <= j < k ==> bytes[j] != 10,
        k == bytes.len() || bytes[k] == 10,
    ensures
        line_end(bytes) == k,
    decreases k,
{
    if k > 0 {
        let rest = bytes.drop_first();
        assert forall|j: int| 0 <= j < k - 1 implies rest[j] != 10 by {
            assert(rest[j] == bytes[j + 1]);
        }
        lemma_line_end(rest, k - 1);
    }
}

/// The lines as sequences of bytes.
pub open spec fn line_views(lines: Seq<Vec<u8>>) -> Seq<Seq<u8>> {
    lines.map_values(|l: Vec<u8>| l@)
}

/// Splits bytes into lines at each line feed.
pub fn split_lines(bytes: &[u8]) -> (lines: Vec<Vec<u8>>)
    ensures
        line_views(lines@) == lines_of(bytes@),
{
    let mut lines: Vec<Vec<u8>> = Vec::new();
    let mut current: Vec<u8> = Vec::new();
    let mut start: usize = 0;
    let mut i: usize = 0;
    let ghost all = bytes@;
    proof {
        assert(all.skip(0) == all);
        assert(line_views(lines@) + lines_of(all) == lines_of(all));
    }
    while i < bytes.len()
        invariant
            all == bytes@,
            start <= i <= all.len(),
            current@ == all.subrange(start as int, i as int),
            forall|j: int| start <= j < i ==> all[j] != 10,
            lines_of(all) == line_views(lines@) + lines_of(all.skip(start as int)),
        decreases all.len() - i,
    {
        let b = bytes[i];
        if b == 10 {
            proof {
                let rest = all.skip(start as int);
                lemma_line_end(rest, i - start);
                assert(rest.take(i - start) == current@);
                assert(rest.skip(i - start + 1) == all.skip(i + 1));
                assert(line_views(lines@.push(current)) == line_views(lines@).push(current@));
                assert(line_views(lines@) + (seq![current@] + lines_of(all.skip(i + 1)))
                    == line_views(lines@).push(current@) + lines_of(all.skip(i + 1)));
            }
            lines.push(current);
            current = Vec::new();
            start = i + 1;
            proof {
                assert(all.subrange(start as int, start as int) == Seq::<u8>::empty());
            }
        } else {
            current.push(b);
            proof {
                assert(all.subrange(start as int, i as int).push(b) == all.subrange(
                    start as int,
                    i + 1,
                ));
            }
        }
        i = i + 1;
    }
    if start < bytes.len() {
        proof {
            let rest = all.skip(start as int);
            lemma_line_end(rest, all.len() - start);
            assert(rest == current@);
            assert(line_views(lines@.push(current)) == line_views(lines@).push(current@));
            assert(line_views(lines@) + seq![current@] == line_views(lines@).push(current@));
        }
        lines.push(current);
    } else {
        proof {
            assert(all.skip(start as int).len() == 0);
            assert(line_views(lines@) + Seq::<Seq<u8>>::empty() == line_views(lines@));
        }
    }
    lines
}

/// `out` is line `ix` as a row: the line under its number, or, where the
/// line could not be read, an internal error that says so.
pub open spec fn numbered_line(
    ix: usize,
    item: Result<Vec<u8>, std::io::Error>,
    out: Result<(usize, Vec<u8>), Status>,
) -> bool {
    match item {
        Ok(line) => out == Ok::<(usize, Vec<u8>), Status>((ix, line)),
        Err(_) => exists|text: Seq<char>|
            #![trigger internal_status("unable to get a line: "@ + text)]
            out == Err::<(usize, Vec<u8>), Status>(
                internal_status("unable to get a line: "@ + text),
            ),
    }
}

/// Makes a row of one line and its number.
pub fn number_line(ix: usize, item: Result<Vec<u8>, std::io::Error>) -> (out: Result<
    (usize, Vec<u8>),
    Status,
>)
    ensures
        numbered_line(ix, item, out),
{
    match item {
        Ok(line) => Ok((ix, line)),
        Err(e) => {
            let text = e.to_string();
            let message = String::from_str("unable to get a line: ").concat(text.as_str());
            Err(status_internal(message.as_str()))
        },
    }
}

/// Makes rows of lines: each line stands under its number, counted from 0
/// over all the lines, those that could not be read too.
pub fn number_lines(lines: Vec<Result<Vec<u8>, std::io::Error>>) -> (out: Vec<
    Result<(usize, Vec<u8>), Status>,
>)
    ensures
        out@.len() == lines@.len(),
        forall|i: int|
            0 <= i < lines@.len() ==> numbered_line(i as usize, lines@[i], #[trigger] out@[i]),
{
    let mut out: Vec<Result<(usize, Vec<u8>), Status>> = Vec::new();
    let ghost all = lines@;
    for item in it: lines.into_iter()
        invariant
            it.seq() == all,
            out@.len() == it.index(),
            forall|i: int|
                0 <= i < out@.len() ==> numbered_line(i as usize, all[i], #[trigger] out@[i]),
    {
        let row = number_line(out.len(), item);
        out.push(row);
    }
    out
}

/// `rows` are the lines under their numbers, counted from 0.
pub open spec fn numbered(lines: Seq<Vec<u8>>, rows: Seq<Result<(usize, Vec<u8>), Status>>) -> bool {
    rows.len() == lines.len() && forall|i: int|
        0 <= i < lines.len() ==> (#[trigger] rows[i]) == Ok::<(usize, Vec<u8>), Status>(
            (i as usize, lines[i]),
        )
}

/// A bucket source whose rows are the lines of the buckets of a source of
/// bytes.
pub struct ReadSrc<R> {
    rsrc: R,
}

impl<R> ReadSrc<R> where R: ReadSource {
    /// The source of bytes.
    pub closed spec fn rsrc(&self) -> R {
        self.rsrc
    }

    /// `r` answers a request for `b`: the source's failure, or the lines of
    /// its bytes under their numbers.
    pub open spec fn answers(
        &self,
        b: R::Bucket,
        r: Result<Vec<Result<(usize, Vec<u8>), Status>>, Status>,
    ) -> bool {
        exists|inner: Result<Vec<u8>, Status>|
            #![trigger call_ensures(R::get_src_read_by_bucket, (&self.rsrc(), b), inner)]
            call_ensures(R::get_src_read_by_bucket, (&self.rsrc(), b), inner) && match inner {
                Err(e) => r == Err::<Vec<Result<(usize, Vec<u8>), Status>>, Status>(e),
                Ok(bytes) => r is Ok && exists|lines: Seq<Vec<u8>>|
                    #![trigger numbered(lines, r->Ok_0@)]
                    line_views(lines) == lines_of(bytes@) && numbered(lines, r->Ok_0@),
            }
    }
}

impl<R> BucketSource for ReadSrc<R> where R: ReadSource {
    type Bucket = R::Bucket;

    type K = usize;

    type V = Vec<u8>;

    /// Gets the bytes of the bucket and splits them into lines.
    fn get_all_by_bucket(&self, b: Self::Bucket) -> (r: Result<
        Vec<Result<(Self::K, Self::V), Status>>,
        Status,
    >)
        ensures
            self.answers(b, r),
    {
        let read = self.rsrc.get_src_read_by_bucket(b);
        let ghost inner = read;
        proof {
            assert(call_ensures(R::get_src_read_by_bucket, (&self.rsrc(), b), inner));
        }
        match read {
            Err(e) => Err(e),
            Ok(bytes) => {
                let lines = split_lines(bytes.as_slice());
                let ghost all = lines@;
                let mut rows: Vec<Result<(usize, Vec<u8>), Status>> = Vec::new();
                for line in it: lines.into_iter()
                    invariant
                        it.seq() == all,
                        numbered(all.take(it.index()), rows@),
                {
                    let ix = rows.len();
                    rows.push(Ok((ix, line)));
                }
                proof {
                    assert(all.take(all.len() as int) == all);
                    assert(numbered(all, rows@));
                    assert(line_views(all) == lines_of(bytes@));
                }
                let r = Ok(rows);
                proof {
                    assert(numbered(all, r->Ok_0@));
                }
                r
            },
        }
    }
}

/// Creates a bucket source of lines from a source of bytes.
pub fn bytes_src_new<R>(rsrc: R) -> (r: ReadSrc<R>) where R: ReadSource
    ensures
        r.rsrc() == rsrc,
{
    ReadSrc { rsrc }
}

} // verus!
