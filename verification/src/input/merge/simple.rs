//! A source that merges two: one drained into an ordered map, one streamed
//! against it.

use core::fmt::Debug;
use std::collections::BTreeMap;
use tonic::Status;
use vstd::prelude::*;
use vstd::string::StringExecFns;

use crate::input::join::mem::btree::{drain_rows, drained, map_view, ordered};
use crate::input::merge::svc::{Merge, MergeSource};
use crate::input::source::Source;
use crate::status::{invalid_argument_status, status_invalid_argument};

verus! {

/// Formats a key as `{:#?}` does. Nothing is stated of the text.
#[verifier::external_body]
fn debug_text<K: Debug>(key: &K) -> (text: String) {
    format!("{key:#?}")
}

/// `out` is what the merge makes of `row` against the map `am`: an error
/// passes through; a pair whose key the map lacks becomes an invalid-argument
/// error that names the key; any other pair becomes what `merge` returned for
/// a clone of the map's value and the pair's value.
pub open spec fn merged_item<K, M: Merge>(
    am: Map<K, M::A>,
    merger: &M,
    row: Result<(K, M::B), Status>,
    out: Result<M::T, Status>,
) -> bool where M::A: Clone {
    match row {
        Err(e) => out == Err::<M::T, Status>(e),
        Ok((k, v)) => if am.contains_key(k) {
            exists|a: M::A|
                #![trigger call_ensures(M::merge, (merger, a, v), out)]
                cloned(am[k], a) && call_ensures(M::merge, (merger, a, v), out)
        } else {
            exists|text: Seq<char>|
                #![trigger invalid_argument_status("no value found for key "@ + text)]
                out == Err::<M::T, Status>(
                    invalid_argument_status("no value found for key "@ + text),
                )
        },
    }
}

/// `out` is `rows` merged row by row against `am`, in the same order.
pub open spec fn merged_items<K, M: Merge>(
    am: Map<K, M::A>,
    merger: &M,
    rows: Seq<Result<(K, M::B), Status>>,
    out: Seq<Result<M::T, Status>>,
) -> bool where M::A: Clone {
    out.len() == rows.len() && forall|i: int|
        0 <= i < rows.len() ==> merged_item(am, merger, rows[i], #[trigger] out[i])
}

/// Merges one streamed row against the map of the drained side. A missing
/// key or a failed merge is the error of that row alone.
pub fn merge_item<K, M>(am: &BTreeMap<K, M::A>, merger: &M, row: Result<(K, M::B), Status>) -> (out:
    Result<M::T, Status>) where K: Ord + Debug, M: Merge, M::A: Clone
    ensures
        ordered::<K>() ==> merged_item(am@, merger, row, out),
{
    broadcast use vstd::std_specs::btree::group_btree_axioms;

    match row {
        Err(e) => Err(e),
        Ok((bk, bv)) => {
            match am.get(&bk) {
                None => {
                    let text = debug_text(&bk);
                    let message = String::from_str("no value found for key ").concat(
                        text.as_str(),
                    );
                    Err(status_invalid_argument(message.as_str()))
                },
                Some(av) => {
                    let a = av.clone();
                    merger.merge(a, bv)
                },
            }
        },
    }
}

/// Merges every streamed row against the map, each on its own and in order.
pub fn merge_items<K, M>(
    am: &BTreeMap<K, M::A>,
    merger: &M,
    rows: Vec<Result<(K, M::B), Status>>,
) -> (out: Vec<Result<M::T, Status>>) where K: Ord + Debug, M: Merge, M::A: Clone
    ensures
        ordered::<K>() ==> merged_items(am@, merger, rows@, out@),
{
    let mut out: Vec<Result<M::T, Status>> = Vec::new();
    let ghost all = rows@;
    for row in it: rows.into_iter()
        invariant
            it.seq() == all,
            out@.len() == it.index(),
            ordered::<K>() ==> merged_items(am@, merger, all.take(it.index()), out@),
    {
        let o = merge_item(am, merger, row);
        out.push(o);
    }
    proof {
        assert(all.take(all.len() as int) == all);
    }
    out
}

/// A source of merged items made of two keyed sources and a merger.
#[derive(Clone)]
pub struct MergedSvc<A, B, M> {
    sa: A,
    sb: B,
    merge: M,
}

impl<A, B, M> MergedSvc<A, B, M> where
    A: MergeSource,
    B: MergeSource<K = <A as MergeSource>::K>,
    M: Merge<A = <A as MergeSource>::V, B = <B as MergeSource>::V>,
    A::K: Ord + Debug,
 {
    /// The source that is drained into an ordered map.
    pub closed spec fn sa(&self) -> A {
        self.sa
    }

    /// The source that is streamed.
    pub closed spec fn sb(&self) -> B {
        self.sb
    }

    /// The merger of their values.
    pub closed spec fn merger(&self) -> M {
        self.merge
    }

    /// Merges a value of `sa` and one of `sb`.
    pub fn merge(&self, a: A::V, b: B::V) -> (r: Result<M::T, Status>)
        ensures
            call_ensures(M::merge, (&self.merger(), a, b), r),
    {
        self.merge.merge(a, b)
    }

    /// `r` is the map of `sa`: its failure, the first error among its rows,
    /// or the map of its pairs.
    pub open spec fn maps(&self, r: Result<BTreeMap<A::K, A::V>, Status>) -> bool {
        exists|inner: Result<Vec<Result<(A::K, A::V), Status>>, Status>|
            #![trigger call_ensures(A::all, (&self.sa(),), inner)]
            call_ensures(A::all, (&self.sa(),), inner) && map_view(r) == match inner {
                Err(e) => Err::<Map<A::K, A::V>, Status>(e),
                Ok(rows) => drained(rows@),
            }
    }

    /// `r` is all of the merged source. `sa` comes first: its failure, or
    /// the first error among its rows, is the answer. Then `sb`: its
    /// failure, or its rows merged against the map.
    pub open spec fn answers(&self, r: Result<Vec<Result<M::T, Status>>, Status>) -> bool where
        A::V: Clone,
     {
        exists|am: Result<BTreeMap<A::K, A::V>, Status>|
            #![trigger self.maps(am)]
            self.maps(am) && match am {
                Err(e) => r == Err::<Vec<Result<M::T, Status>>, Status>(e),
                Ok(m) => exists|inner: Result<Vec<Result<(A::K, B::V), Status>>, Status>|
                    #![trigger call_ensures(B::all, (&self.sb(),), inner)]
                    call_ensures(B::all, (&self.sb(),), inner) && match inner {
                        Err(e) => r == Err::<Vec<Result<M::T, Status>>, Status>(e),
                        Ok(rows) => r is Ok && merged_items(m@, &self.merger(), rows@, r->Ok_0@),
                    },
            }
    }
}

impl<A, B, M> Source for MergedSvc<A, B, M> where
    A: MergeSource,
    B: MergeSource<K = <A as MergeSource>::K>,
    M: Merge<A = <A as MergeSource>::V, B = <B as MergeSource>::V>,
    A::K: Ord + Debug,
    A::V: Clone,
 {
    type Item = M::T;

    /// Drains `sa` into an ordered map, then merges every row of `sb`
    /// against it.
    fn all(&self) -> (r: Result<Vec<Result<Self::Item, Status>>, Status>)
        ensures
            ordered::<A::K>() ==> self.answers(r),
    {
        let drawn = self.sa.all();
        let ghost inner = drawn;
        let am = match drawn {
            Err(e) => Err(e),
            Ok(rows) => drain_rows(rows),
        };
        proof {
            if ordered::<A::K>() {
                assert(call_ensures(A::all, (&self.sa(),), inner));
                assert(self.maps(am));
            }
        }
        let ghost drained_side = am;
        match am {
            Err(e) => Err(e),
            Ok(amap) => {
                let streamed = self.sb.all();
                let ghost inner = streamed;
                let r = match streamed {
                    Err(e) => Err(e),
                    Ok(rows) => Ok(merge_items(&amap, &self.merge, rows)),
                };
                proof {
                    if ordered::<A::K>() {
                        assert(call_ensures(B::all, (&self.sb(),), inner));
                        assert(drained_side == Ok::<BTreeMap<A::K, A::V>, Status>(amap));
                    }
                }
                r
            },
        }
    }
}

/// Creates a source of two sources.
///
/// - `sa`: a source with fewer elements (its pairs are held in an ordered map)
/// - `sb`: a source which may hold many elements, and a key many times
/// - `merger`: merges a value of `sa` and a value of `sb`
///
/// With `sa` holding `1 -> a` and `2 -> b`, and `sb` holding `1 -> p`,
/// `1 -> q` and `2 -> r`, the merged source holds the merges of `a` and `p`,
/// of `a` and `q`, and of `b` and `r`, in that order.
pub fn source_new_merged<A, B, M>(sa: A, sb: B, merger: M) -> (r: MergedSvc<A, B, M>) where
    A: MergeSource,
    B: MergeSource<K = <A as MergeSource>::K>,
    M: Merge<A = <A as MergeSource>::V, B = <B as MergeSource>::V>,
    A::K: Ord + Debug,
    A::V: Clone,

    ensures
        r.sa() == sa,
        r.sb() == sb,
        r.merger() == merger,
{
    MergedSvc { sa, sb, merge: merger }
}

} // verus!
