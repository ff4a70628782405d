//! A bucket source whose values are converted, the keys kept.

use tonic::Status;
use vstd::prelude::*;

use crate::input::source::BucketSource;

verus! {

/// A conversion of one input into one output.
pub trait Converter {
    type Input;

    type Output;

    fn convert(&self, i: Self::Input) -> Result<Self::Output, Status>;
}

/// `out` is what the conversion makes of `row`: an error passes through; a
/// pair keeps its key and takes the output that `convert` returned for a
/// clone of the key and the value, or becomes the error that it returned.
pub open spec fn converted_row<K: Clone, V, C: Converter<Input = (K, V)>>(
    converter: &C,
    row: Result<(K, V), Status>,
    out: Result<(K, C::Output), Status>,
) -> bool {
    match row {
        Err(e) => out == Err::<(K, C::Output), Status>(e),
        Ok((k, v)) => exists|kc: K, res: Result<C::Output, Status>|
            #![trigger call_ensures(C::convert, (converter, (kc, v)), res)]
            cloned(k, kc) && call_ensures(C::convert, (converter, (kc, v)), res) && out == match res {
                Ok(o) => Ok::<(K, C::Output), Status>((k, o)),
                Err(e) => Err::<(K, C::Output), Status>(e),
            },
    }
}

/// `out` is `rows` converted row by row, in the same order.
pub open spec fn converted_rows<K: Clone, V, C: Converter<Input = (K, V)>>(
    converter: &C,
    rows: Seq<Result<(K, V), Status>>,
    out: Seq<Result<(K, C::Output), Status>>,
) -> bool {
    out.len() == rows.len() && forall|i: int|
        0 <= i < rows.len() ==> converted_row(converter, rows[i], #[trigger] out[i])
}

/// Converts one row. A failed conversion is the error of that row alone.
pub fn convert_row<K: Clone, V, C: Converter<Input = (K, V)>>(
    converter: &C,
    row: Result<(K, V), Status>,
) -> (out: Result<(K, C::Output), Status>)
    ensures
        converted_row(converter, row, out),
{
    match row {
        Err(e) => Err(e),
        Ok((k, v)) => {
            let kc = k.clone();
            let res = converter.convert((kc, v));
            match res {
                Ok(o) => Ok((k, o)),
                Err(e) => Err(e),
            }
        },
    }
}

/// Converts every row, each on its own: an error among them stops nothing.
pub fn convert_rows<K: Clone, V, C: Converter<Input = (K, V)>>(
    converter: &C,
    rows: Vec<Result<(K, V), Status>>,
) -> (out: Vec<Result<(K, C::Output), Status>>)
    ensures
        converted_rows(converter, rows@, out@),
{
    let mut out: Vec<Result<(K, C::Output), Status>> = Vec::new();
    let ghost all = rows@;
    for row in it: rows.into_iter()
        invariant
            it.seq() == all,
            converted_rows(converter, all.take(it.index()), out@),
    {
        let o = convert_row(converter, row);
        out.push(o);
    }
    proof {
        assert(all.take(all.len() as int) == all);
    }
    out
}

/// A bucket source whose values are those of another, converted.
pub struct ConvSource<B, C> {
    converter: C,
    source: B,
}

impl<B, C> ConvSource<B, C> where B: BucketSource, B::K: Clone, C: Converter<Input = (B::K, B::V)> {
    /// The conversion applied to the pairs.
    pub closed spec fn converter(&self) -> C {
        self.converter
    }

    /// The source that is converted.
    pub closed spec fn source(&self) -> B {
        self.source
    }

    /// `r` answers a request for `b`: the source's failure, or its rows
    /// converted.
    pub open spec fn answers(
        &self,
        b: B::Bucket,
        r: Result<Vec<Result<(B::K, C::Output), Status>>, Status>,
    ) -> bool {
        exists|inner: Result<Vec<Result<(B::K, B::V), Status>>, Status>|
            #![trigger call_ensures(B::get_all_by_bucket, (&self.source(), b), inner)]
            call_ensures(B::get_all_by_bucket, (&self.source(), b), inner) && match inner {
                Err(e) => r == Err::<Vec<Result<(B::K, C::Output), Status>>, Status>(e),
                Ok(rows) => r is Ok && converted_rows(&self.converter(), rows@, r->Ok_0@),
            }
    }
}

impl<B, C> BucketSource for ConvSource<B, C> where
    B: BucketSource,
    B::K: Clone,
    C: Converter<Input = (B::K, B::V)>,
 {
    type Bucket = B::Bucket;

    type K = B::K;

    type V = C::Output;

    /// Gets all pairs of a bucket of the source, converted.
    fn get_all_by_bucket(&self, b: Self::Bucket) -> (r: Result<
        Vec<Result<(Self::K, Self::V), Status>>,
        Status,
    >)
        ensures
            self.answers(b, r),
    {
        match self.source.get_all_by_bucket(b) {
            Err(e) => Err(e),
            Ok(rows) => Ok(convert_rows(&self.converter, rows)),
        }
    }
}

/// Creates a bucket source from another one and a converter.
pub fn conv_source_new<B, C>(original: B, converter: C) -> (r: ConvSource<B, C>) where
    B: BucketSource,
    B::K: Clone,
    C: Converter<Input = (B::K, B::V)>,

    ensures
        r.source() == original,
        r.converter() == converter,
{
    ConvSource { converter, source: original }
}

} // verus!
