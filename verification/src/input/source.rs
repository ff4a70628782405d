//! The two source interfaces, the mapping operator and the two-source merge.

use std::collections::BTreeMap;
use std::sync::Arc;
use tonic::Status;
use vstd::prelude::*;

use crate::input::join::mem::btree::{drain_rows, drained, map_view, ordered};
use crate::status::{invalid_argument_status, status_invalid_argument};

verus! {

/// A source of items. The call itself may fail; a failure of one item stands
/// in the sequence in that item's place.
pub trait Source {
    type Item;

    fn all(&self) -> Result<Vec<Result<Self::Item, Status>>, Status>;
}

/// A source of buckets, each a sequence of key/value pairs.
pub trait BucketSource {
    type Bucket;

    type K;

    type V;

    /// Gets all key/value pairs of a bucket.
    fn get_all_by_bucket(&self, b: Self::Bucket) -> Result<
        Vec<Result<(Self::K, Self::V), Status>>,
        Status,
    >;
}

/// A transform of one pair into another.
pub trait Mapper {
    type IK;

    type IV;

    type OK;

    type OV;

    fn convert(&self, key: Self::IK, val: Self::IV) -> Result<(Self::OK, Self::OV), Status>;
}

/// `out` is what `mapper` makes of `row`: an error passes through, a pair
/// becomes what `convert` returned for it.
pub open spec fn mapped_row<M: Mapper>(
    mapper: &M,
    row: Result<(M::IK, M::IV), Status>,
    out: Result<(M::OK, M::OV), Status>,
) -> bool {
    match row {
        Ok((k, v)) => call_ensures(M::convert, (mapper, k, v), out),
        Err(e) => out == Err::<(M::OK, M::OV), Status>(e),
    }
}

/// `out` is `rows` mapped row by row, in the same order.
pub open spec fn mapped_rows<M: Mapper>(
    mapper: &M,
    rows: Seq<Result<(M::IK, M::IV), Status>>,
    out: Seq<Result<(M::OK, M::OV), Status>>,
) -> bool {
    out.len() == rows.len() && forall|i: int|
        0 <= i < rows.len() ==> mapped_row(mapper, rows[i], #[trigger] out[i])
}

/// Maps one row. A failed transform is the error of that row alone.
pub fn map_row<M: Mapper>(mapper: &M, row: Result<(M::IK, M::IV), Status>) -> (out: Result<
    (M::OK, M::OV),
    Status,
>)
    ensures
        mapped_row(mapper, row, out),
{
    match row {
        Ok((k, v)) => mapper.convert(k, v),
        Err(e) => Err(e),
    }
}

/// Maps every row, each on its own: an error among them stops nothing.
pub fn map_rows<M: Mapper>(mapper: &M, rows: Vec<Result<(M::IK, M::IV), Status>>) -> (out: Vec<
    Result<(M::OK, M::OV), Status>,
>)
    ensures
        mapped_rows(mapper, rows@, out@),
{
    let mut out: Vec<Result<(M::OK, M::OV), Status>> = Vec::new();
    let ghost all = rows@;
    for row in it: rows.into_iter()
        invariant
            it.seq() == all,
            mapped_rows(mapper, all.take(it.index()), out@),
    {
        let o = map_row(mapper, row);
        out.push(o);
    }
    proof {
        assert(all.take(all.len() as int) == all);
    }
    out
}

/// A bucket source whose pairs are those of another, mapped.
pub struct BucketSrcMapd<M, B> {
    original: B,
    mapper: M,
}

impl<M, B> BucketSrcMapd<M, B> where M: Mapper, B: BucketSource<K = M::IK, V = M::IV> {
    /// The source that is mapped.
    pub closed spec fn original(&self) -> B {
        self.original
    }

    /// The transform applied to its pairs.
    pub closed spec fn mapper(&self) -> M {
        self.mapper
    }

    /// `r` answers a request for `b`: the failure of the mapped source, or its rows
    /// mapped.
    pub open spec fn answers(
        &self,
        b: B::Bucket,
        r: Result<Vec<Result<(M::OK, M::OV), Status>>, Status>,
    ) -> bool {
        exists|inner: Result<Vec<Result<(M::IK, M::IV), Status>>, Status>|
            #![trigger call_ensures(B::get_all_by_bucket, (&self.original(), b), inner)]
            call_ensures(B::get_all_by_bucket, (&self.original(), b), inner) && match inner {
                Err(e) => r == Err::<Vec<Result<(M::OK, M::OV), Status>>, Status>(e),
                Ok(rows) => r is Ok && mapped_rows(&self.mapper(), rows@, r->Ok_0@),
            }
    }
}

impl<M, B> BucketSource for BucketSrcMapd<M, B> where
    M: Mapper,
    B: BucketSource<K = M::IK, V = M::IV>,
 {
    type Bucket = B::Bucket;

    type K = M::OK;

    type V = M::OV;

    /// Gets all pairs of a bucket of the inner source, mapped.
    fn get_all_by_bucket(&self, b: Self::Bucket) -> (r: Result<
        Vec<Result<(Self::K, Self::V), Status>>,
        Status,
    >)
        ensures
            self.answers(b, r),
    {
        match self.original.get_all_by_bucket(b) {
            Err(e) => Err(e),
            Ok(rows) => Ok(map_rows(&self.mapper, rows)),
        }
    }
}

/// Creates a bucket source from another one and a mapper.
pub fn mapd_bkt_src_new<M, B>(mapper: M, original: B) -> (r: BucketSrcMapd<M, B>) where
    M: Mapper,
    B: BucketSource<K = M::IK, V = M::IV>,

    ensures
        r.mapper() == mapper,
        r.original() == original,
{
    BucketSrcMapd { original, mapper }
}

impl<A> BucketSource for Arc<A> where A: BucketSource {
    type Bucket = A::Bucket;

    type K = A::K;

    type V = A::V;

    /// Asks the shared source.
    fn get_all_by_bucket(&self, b: Self::Bucket) -> (r: Result<
        Vec<Result<(Self::K, Self::V), Status>>,
        Status,
    >)
        ensures
            call_ensures(A::get_all_by_bucket, (&**self, b), r),
    {
        let a: &A = self;
        a.get_all_by_bucket(b)
    }
}

/// A merger which tries to make a merged value of two inputs.
pub trait Merge {
    type A;

    type B;

    type T;

    fn merge(&self, a: Self::A, b: Self::B) -> Result<Self::T, Status>;
}

/// `out` is what the join makes of `row` against the map `am`: an error
/// passes through; a pair whose key the map lacks becomes the error "no val
/// found"; any other pair keeps its key and takes what `merge` returned for a
/// clone of the map's value and the pair's value.
pub open spec fn joined_row<K, M: Merge>(
    am: Map<K, M::A>,
    merger: &M,
    row: Result<(K, M::B), Status>,
    out: Result<(K, M::T), Status>,
) -> bool where M::A: Clone {
    match row {
        Err(e) => out == Err::<(K, M::T), Status>(e),
        Ok((k, v)) => if am.contains_key(k) {
            exists|a: M::A, res: Result<M::T, Status>|
                #![trigger call_ensures(M::merge, (merger, a, v), res)]
                cloned(am[k], a) && call_ensures(M::merge, (merger, a, v), res) && out == match res {
                    Ok(t) => Ok::<(K, M::T), Status>((k, t)),
                    Err(e) => Err::<(K, M::T), Status>(e),
                }
        } else {
            out == Err::<(K, M::T), Status>(invalid_argument_status("no val found"@))
        },
    }
}

/// `out` is `rows` joined row by row against `am`, in the same order.
pub open spec fn joined_rows<K, M: Merge>(
    am: Map<K, M::A>,
    merger: &M,
    rows: Seq<Result<(K, M::B), Status>>,
    out: Seq<Result<(K, M::T), Status>>,
) -> bool where M::A: Clone {
    out.len() == rows.len() && forall|i: int|
        0 <= i < rows.len() ==> joined_row(am, merger, rows[i], #[trigger] out[i])
}

/// Joins one streamed row against the map of the drained side. A missing key
/// or a failed merge is the error of that row alone.
pub fn join_row<K, M>(am: &BTreeMap<K, M::A>, merger: &M, row: Result<(K, M::B), Status>) -> (out:
    Result<(K, M::T), Status>) where K: Ord, M: Merge, M::A: Clone
    ensures
        ordered::<K>() ==> joined_row(am@, merger, row, out),
{
    broadcast use vstd::std_specs::btree::group_btree_axioms;

    match row {
        Err(e) => Err(e),
        Ok((k, v)) => {
            match am.get(&k) {
                None => Err(status_invalid_argument("no val found")),
                Some(av) => {
                    let a = av.clone();
                    let res = merger.merge(a, v);
                    match res {
                        Ok(t) => Ok((k, t)),
                        Err(e) => Err(e),
                    }
                },
            }
        },
    }
}

/// Joins every streamed row against the map, each on its own and in order.
pub fn join_rows<K, M>(
    am: &BTreeMap<K, M::A>,
    merger: &M,
    rows: Vec<Result<(K, M::B), Status>>,
) -> (out: Vec<Result<(K, M::T), Status>>) where K: Ord, M: Merge, M::A: Clone
    ensures
        ordered::<K>() ==> joined_rows(am@, merger, rows@, out@),
{
    let mut out: Vec<Result<(K, M::T), Status>> = Vec::new();
    let ghost all = rows@;
    for row in it: rows.into_iter()
        invariant
            it.seq() == all,
            out@.len() == it.index(),
            ordered::<K>() ==> joined_rows(am@, merger, all.take(it.index()), out@),
    {
        let o = join_row(am, merger, row);
        out.push(o);
    }
    proof {
        assert(all.take(all.len() as int) == all);
    }
    out
}

/// A bucket source that joins two: `sa`, small and drained into an ordered
/// map, and `sb`, streamed against it.
pub struct BucketMerge<A, B, M> {
    sa: A,
    sb: B,
    merger: M,
}

impl<A, B, M> BucketMerge<A, B, M> where A: BucketSource, A::K: Ord {
    /// The drained side.
    pub closed spec fn sa(&self) -> A {
        self.sa
    }

    /// The streamed side.
    pub closed spec fn sb(&self) -> B {
        self.sb
    }

    /// The merger of their values.
    pub closed spec fn merger(&self) -> M {
        self.merger
    }

    /// `r` is the map of bucket `b` of the drained side: that side's
    /// failure, the first error among its rows, or the map of its pairs.
    pub open spec fn maps(&self, b: A::Bucket, r: Result<BTreeMap<A::K, A::V>, Status>) -> bool {
        exists|inner: Result<Vec<Result<(A::K, A::V), Status>>, Status>|
            #![trigger call_ensures(A::get_all_by_bucket, (&self.sa(), b), inner)]
            call_ensures(A::get_all_by_bucket, (&self.sa(), b), inner) && map_view(r) == match inner {
                Err(e) => Err::<Map<A::K, A::V>, Status>(e),
                Ok(rows) => drained(rows@),
            }
    }

    /// Creates an ordered map from all pairs of a bucket of the drained side.
    /// The first error among the rows ends the drain.
    pub fn to_map(&self, b: A::Bucket) -> (r: Result<BTreeMap<A::K, A::V>, Status>)
        ensures
            ordered::<A::K>() ==> self.maps(b, r),
    {
        match self.sa.get_all_by_bucket(b) {
            Err(e) => Err(e),
            Ok(rows) => drain_rows(rows),
        }
    }
}

impl<A, B, M> BucketMerge<A, B, M> where
    A: BucketSource<Bucket = ()>,
    A::K: Ord,
    A::V: Clone,
    B: BucketSource<K = A::K>,
    M: Merge<A = A::V, B = B::V>,
 {
    /// `r` answers a request for `b`. The drained side comes first: its
    /// failure, or the first error among its rows, is the answer. Then the
    /// streamed side: its failure, or its rows joined against the map.
    pub open spec fn answers(
        &self,
        b: B::Bucket,
        r: Result<Vec<Result<(A::K, M::T), Status>>, Status>,
    ) -> bool {
        exists|am: Result<BTreeMap<A::K, A::V>, Status>|
            #![trigger self.maps((), am)]
            self.maps((), am) && match am {
                Err(e) => r == Err::<Vec<Result<(A::K, M::T), Status>>, Status>(e),
                Ok(m) => exists|inner: Result<Vec<Result<(A::K, B::V), Status>>, Status>|
                    #![trigger call_ensures(B::get_all_by_bucket, (&self.sb(), b), inner)]
                    call_ensures(B::get_all_by_bucket, (&self.sb(), b), inner) && match inner {
                        Err(e) => r == Err::<Vec<Result<(A::K, M::T), Status>>, Status>(e),
                        Ok(rows) => r is Ok && joined_rows(m@, &self.merger(), rows@, r->Ok_0@),
                    },
            }
    }
}

impl<A, B, M> BucketSource for BucketMerge<A, B, M> where
    A: BucketSource<Bucket = ()>,
    A::K: Ord,
    A::V: Clone,
    B: BucketSource<K = A::K>,
    M: Merge<A = A::V, B = B::V>,
 {
    type Bucket = B::Bucket;

    type K = A::K;

    type V = M::T;

    /// Drains `sa`, then joins every row of bucket `b` of `sb` against it.
    fn get_all_by_bucket(&self, b: B::Bucket) -> (r: Result<
        Vec<Result<(Self::K, Self::V), Status>>,
        Status,
    >)
        ensures
            ordered::<A::K>() ==> self.answers(b, r),
    {
        let am = self.to_map(());
        match am {
            Err(e) => Err(e),
            Ok(m) => match self.sb.get_all_by_bucket(b) {
                Err(e) => Err(e),
                Ok(rows) => Ok(join_rows(&m, &self.merger, rows)),
            },
        }
    }
}

/// Creates a merged bucket source of `sa` and `sb`.
///
/// - `sa`: a bucket source with few pairs, drained into an ordered map
/// - `sb`: a bucket source which may have many pairs
/// - `merger`: makes the merged value of a value of `sa` and one of `sb`
pub fn bkt_src_merged_new<A, B, M>(sa: A, sb: B, merger: M) -> (r: BucketMerge<A, B, M>) where
    A: BucketSource<Bucket = ()>,
    A::K: Ord,
    A::V: Clone,
    B: BucketSource<K = A::K>,
    M: Merge<A = A::V, B = B::V>,

    ensures
        r.sa() == sa,
        r.sb() == sb,
        r.merger() == merger,
{
    BucketMerge { sa, sb, merger }
}

} // verus!
