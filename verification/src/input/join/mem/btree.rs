//! Ordered maps drained from rows, and the merge of several buckets by key.

use std::collections::BTreeMap;
use tonic::Status;
use vstd::prelude::*;
use vstd::std_specs::btree::{increasing_seq, spec_btree_map_iter};
use vstd::std_specs::cmp::OrdSpec;
use vstd::std_specs::iter::IteratorSpec;

use crate::input::source::BucketSource;

verus! {

/// `K`'s `Ord` is a total order that agrees with equality. Ordered maps keyed
/// by `K` behave as maps only under this.
pub open spec fn ordered<K: Ord>() -> bool {
    vstd::laws_cmp::obeys_cmp::<K>()
}

/// What draining `rows` into an ordered map gives: the first error among them,
/// or else every pair inserted in turn, a later pair replacing an earlier one
/// with the same key.
pub open spec fn drained<K, V>(rows: Seq<Result<(K, V), Status>>) -> Result<Map<K, V>, Status>
    decreases rows.len(),
{
    if rows.len() == 0 {
        Ok(Map::empty())
    } else {
        match drained(rows.drop_last()) {
            Err(e) => Err(e),
            Ok(m) => match rows.last() {
                Ok((k, v)) => Ok(m.insert(k, v)),
                Err(e) => Err(e),
            },
        }
    }
}

/// An ordered map, or the error in its place, as a mathematical map.
pub open spec fn map_view<K, V>(r: Result<BTreeMap<K, V>, Status>) -> Result<Map<K, V>, Status> {
    match r {
        Ok(m) => Ok(m@),
        Err(e) => Err(e),
    }
}

/// Draining succeeds exactly when no row is an error.
pub proof fn lemma_drained_ok<K, V>(rows: Seq<Result<(K, V), Status>>)
    ensures
        drained(rows) is Ok <==> forall|i: int| 0 <= i < rows.len() ==> rows[i] is Ok,
    decreases rows.len(),
{
    if rows.len() > 0 {
        let front = rows.drop_last();
        lemma_drained_ok(front);
        if drained(rows) is Ok {
            assert forall|i: int| 0 <= i < rows.len() implies rows[i] is Ok by {
                if i < rows.len() - 1 {
                    assert(front[i] == rows[i]);
                }
            }
        } else {
            if drained(front) is Ok {
                assert(rows[rows.len() - 1] is Err);
            } else {
                let i = choose|i: int| 0 <= i < front.len() && !(front[i] is Ok);
                assert(front[i] == rows[i]);
            }
        }
    }
}

/// A drain that fails gives the first error row, and every row before it is
/// a pair.
pub proof fn lemma_drained_first_error<K, V>(rows: Seq<Result<(K, V), Status>>)
    ensures
        drained(rows) matches Err(e) ==> exists|i: int|
            0 <= i < rows.len() && rows[i] == Err::<(K, V), Status>(e) && forall|j: int|
                0 <= j < i ==> (#[trigger] rows[j]) is Ok,
    decreases rows.len(),
{
    if rows.len() > 0 {
        let front = rows.drop_last();
        lemma_drained_first_error(front);
        lemma_drained_ok(front);
        match drained(front) {
            Err(e) => {
                let i = choose|i: int|
                    0 <= i < front.len() && front[i] == Err::<(K, V), Status>(e) && forall|j: int|
                        0 <= j < i ==> (#[trigger] front[j]) is Ok;
                assert(rows[i] == front[i]);
                assert forall|j: int| 0 <= j < i implies (#[trigger] rows[j]) is Ok by {
                    assert(front[j] == rows[j]);
                }
            },
            Ok(_) => {
                if rows.last() is Err {
                    let i = rows.len() - 1;
                    assert forall|j: int| 0 <= j < i implies (#[trigger] rows[j]) is Ok by {
                        assert(front[j] == rows[j]);
                    }
                }
            },
        }
    }
}

/// Row `i` of `rows` is a pair with the key `key`.
pub open spec fn holds_key<K, V>(rows: Seq<Result<(K, V), Status>>, i: int, key: K) -> bool {
    0 <= i < rows.len() && rows[i] is Ok && rows[i]->Ok_0.0 == key
}

/// The index of the last row that holds `key`, or -1 where none does.
pub open spec fn last_holder<K, V>(rows: Seq<Result<(K, V), Status>>, key: K) -> int
    decreases rows.len(),
{
    if rows.len() == 0 {
        -1
    } else if holds_key(rows, rows.len() - 1, key) {
        rows.len() - 1
    } else {
        last_holder(rows.drop_last(), key)
    }
}

/// `last_holder` is what its name says: it holds the key, and no later row does.
pub proof fn lemma_last_holder<K, V>(rows: Seq<Result<(K, V), Status>>, key: K)
    ensures
        -1 <= last_holder(rows, key) < rows.len(),
        last_holder(rows, key) >= 0 ==> holds_key(rows, last_holder(rows, key), key),
        forall|j: int| last_holder(rows, key) < j ==> !holds_key(rows, j, key),
    decreases rows.len(),
{
    if rows.len() > 0 && !holds_key(rows, rows.len() - 1, key) {
        let front = rows.drop_last();
        lemma_last_holder(front, key);
        let h = last_holder(front, key);
        if h >= 0 {
            assert(front[h] == rows[h]);
        }
        assert forall|j: int| h < j implies !holds_key(rows, j, key) by {
            if j < rows.len() - 1 {
                assert(!holds_key(front, j, key));
                assert(front[j] == rows[j]);
            }
        }
    }
}

/// Last write wins: after a drain of pairs alone, a key is in the map exactly
/// when some row holds it, and its value is that of the last such row.
pub proof fn lemma_drained_last_write_wins<K, V>(rows: Seq<Result<(K, V), Status>>, key: K)
    requires
        forall|i: int| 0 <= i < rows.len() ==> rows[i] is Ok,
    ensures
        drained(rows) is Ok,
        drained(rows)->Ok_0.contains_key(key) <==> last_holder(rows, key) >= 0,
        last_holder(rows, key) >= 0 ==> drained(rows)->Ok_0[key] == rows[last_holder(
            rows,
            key,
        )]->Ok_0.1,
    decreases rows.len(),
{
    lemma_drained_ok(rows);
    if rows.len() > 0 {
        let front = rows.drop_last();
        assert forall|i: int| 0 <= i < front.len() implies front[i] is Ok by {
            assert(front[i] == rows[i]);
        }
        lemma_drained_last_write_wins(front, key);
        lemma_last_holder(front, key);
        let h = last_holder(front, key);
        if h >= 0 {
            assert(front[h] == rows[h]);
        }
    }
}

/// Drains rows into an ordered map: stops at the first error and returns it,
/// else inserts every pair in turn, so that for a key that comes twice the
/// later value stays.
pub fn drain_rows<K: Ord, V>(rows: Vec<Result<(K, V), Status>>) -> (r: Result<
    BTreeMap<K, V>,
    Status,
>)
    ensures
        ordered::<K>() ==> map_view(r) == drained(rows@),
{
    let mut m: BTreeMap<K, V> = BTreeMap::new();
    let ghost all = rows@;
    for row in it: rows.into_iter()
        invariant
            it.seq() == all,
            ordered::<K>() ==> drained(all.take(it.index())) == Ok::<Map<K, V>, Status>(m@),
    {
        proof {
            assert(all.take(it.index() + 1).drop_last() == all.take(it.index()));
        }
        match row {
            Ok((k, v)) => {
                m.insert(k, v);
            },
            Err(e) => {
                proof {
                    if ordered::<K>() {
                        lemma_drained_prefix_error(all, it.index() + 1);
                    }
                }
                return Err(e);
            },
        }
    }
    proof {
        assert(all.take(all.len() as int) == all);
    }
    Ok(m)
}

/// An error met in a prefix is the error of the whole.
pub proof fn lemma_drained_prefix_error<K, V>(rows: Seq<Result<(K, V), Status>>, n: int)
    requires
        0 <= n <= rows.len(),
        drained(rows.take(n)) is Err,
    ensures
        drained(rows) == drained(rows.take(n)),
    decreases rows.len() - n,
{
    if n < rows.len() {
        assert(rows.take(n + 1).drop_last() == rows.take(n));
        lemma_drained_prefix_error(rows, n + 1);
    } else {
        assert(rows.take(n) == rows);
    }
}

/// A source of buckets, each held whole as an ordered map.
pub trait MemSource {
    type Bucket: Ord;

    type K: Ord;

    type V;

    fn get_all_by_bucket(&self, b: Self::Bucket) -> Result<BTreeMap<Self::K, Self::V>, Status>;
}

/// `r` is bucket `b` of `source`, drained: the source's failure, the first
/// error among its rows, or the map of its pairs.
pub open spec fn lifted<B: BucketSource>(
    source: &B,
    b: B::Bucket,
    r: Result<BTreeMap<B::K, B::V>, Status>,
) -> bool {
    exists|inner: Result<Vec<Result<(B::K, B::V), Status>>, Status>|
        #![trigger call_ensures(B::get_all_by_bucket, (source, b), inner)]
        call_ensures(B::get_all_by_bucket, (source, b), inner) && map_view(r) == match inner {
            Err(e) => Err::<Map<B::K, B::V>, Status>(e),
            Ok(rows) => drained(rows@),
        }
}

/// A bucket source taken as a source of ordered maps: each bucket is drained
/// when it is asked for.
pub struct MemSrc<B> {
    bsrc: B,
}

impl<B> MemSrc<B> where B: BucketSource {
    /// The bucket source that is drained.
    pub closed spec fn bsrc(&self) -> B {
        self.bsrc
    }
}

impl<B> MemSource for MemSrc<B> where B: BucketSource, B::Bucket: Clone + Ord, B::K: Ord {
    type Bucket = B::Bucket;

    type K = B::K;

    type V = B::V;

    /// Drains the bucket into an ordered map. The first error among the rows
    /// ends the drain: a map built of part of a bucket is not to be joined
    /// against.
    fn get_all_by_bucket(&self, b: Self::Bucket) -> (r: Result<
        BTreeMap<Self::K, Self::V>,
        Status,
    >)
        ensures
            ordered::<B::K>() ==> lifted(&self.bsrc(), b, r),
    {
        match self.bsrc.get_all_by_bucket(b) {
            Err(e) => Err(e),
            Ok(rows) => drain_rows(rows),
        }
    }
}

/// Takes a bucket source as a source of ordered maps.
pub fn mem_src_new<B>(bsrc: B) -> (r: MemSrc<B>) where
    B: BucketSource,
    B::Bucket: Clone + Ord,
    B::K: Ord,

    ensures
        r.bsrc() == bsrc,
{
    MemSrc { bsrc }
}

/// A fold of the maps of several buckets into one value for a key.
pub trait Merger {
    type Bucket: Ord + Clone;

    type K: Ord;

    type T;

    type U;

    fn merge(
        &self,
        key: Self::K,
        inputs: &BTreeMap<Self::Bucket, BTreeMap<Self::K, Self::T>>,
    ) -> Result<Self::U, Status>;
}

/// `order` lists `keys` once each, in ascending order.
pub open spec fn ascending<K>(order: Seq<K>, keys: Set<K>) -> bool {
    increasing_seq(order) && order.no_duplicates() && order.to_set() == keys
}

/// The values of `s` that are there, in order.
pub open spec fn somes<T>(s: Seq<Option<T>>) -> Seq<T>
    decreases s.len(),
{
    if s.len() == 0 {
        Seq::empty()
    } else {
        match s.last() {
            Some(x) => somes(s.drop_last()).push(x),
            None => somes(s.drop_last()),
        }
    }
}

/// A merger that groups: for a key, each bucket that has the key gives one
/// entry of the output map.
pub trait Grouper: Sized {
    type BucketI: Ord;

    type BucketO: Ord + Clone;

    type K: Ord;

    type T;

    fn conv(&self, i: &Self::BucketI, t: &Self::T) -> Result<(Self::BucketO, Self::T), Status>;

    /// Folds the entries of `key` over the buckets in ascending order. A
    /// bucket without the key is passed over; the first failed `conv` ends
    /// the fold with its error.
    fn group(
        &self,
        key: Self::K,
        inputs: &BTreeMap<Self::BucketI, BTreeMap<Self::K, Self::T>>,
    ) -> (r: Result<BTreeMap<Self::BucketO, Self::T>, Status>)
        default_ensures
            ordered::<Self::BucketI>() && ordered::<Self::BucketO>() && ordered::<Self::K>()
                ==> grouped(
                |b: Self::BucketI, t: Self::T, res: Result<(Self::BucketO, Self::T), Status>|
                    call_ensures(Self::conv, (self, &b, &t), res),
                key,
                inputs@,
                r,
            ),
    {
        broadcast use vstd::std_specs::btree::group_btree_axioms;

        let mut m: BTreeMap<Self::BucketO, Self::T> = BTreeMap::new();
        let ghost mut outs: Seq<Option<Result<(Self::BucketO, Self::T), Status>>> = Seq::empty();
        let ghost lawful = ordered::<Self::BucketI>() && ordered::<Self::BucketO>() && ordered::<
            Self::K,
        >();
        let ghost conv = |b: Self::BucketI, t: Self::T, res: Result<(Self::BucketO, Self::T), Status>|
            call_ensures(Self::conv, (self, &b, &t), res);
        let mut entries = inputs.iter();
        let ghost all = entries.remaining();
        proof {
            if lawful {
                lemma_walk(inputs);
            }
        }
        let total = inputs.len();
        let mut done: usize = 0;
        while done < total
            invariant
                lawful == (ordered::<Self::BucketI>() && ordered::<Self::BucketO>() && ordered::<
                    Self::K,
                >()),
                conv == |b: Self::BucketI, t: Self::T, res: Result<(Self::BucketO, Self::T), Status>|
                    call_ensures(Self::conv, (self, &b, &t), res),
                entries.obeys_prophetic_iter_laws(),
                done <= total,
                done <= all.len(),
                lawful ==> total == all.len(),
                entries.remaining() == all.skip(done as int),
                lawful ==> ascending(bucket_order(all), inputs@.dom()),
                lawful ==> forall|i: int|
                    0 <= i < all.len() ==> inputs@.contains_key(*(#[trigger] all[i]).0)
                        && inputs@[*all[i].0] == *all[i].1,
                outs.len() == done,
                lawful ==> forall|i: int|
                    0 <= i < outs.len() ==> group_step(
                        conv,
                        key,
                        inputs@,
                        bucket_order(all)[i],
                        #[trigger] outs[i],
                    ),
                forall|i: int| 0 <= i < outs.len() ==> !((#[trigger] outs[i]) matches Some(Err(_))),
                lawful ==> drained(somes(outs)) == Ok::<Map<Self::BucketO, Self::T>, Status>(m@),
                lawful && done == total ==> group_steps(
                    conv,
                    key,
                    inputs@,
                    bucket_order(all),
                    outs,
                ),
            ensures
                lawful ==> grouped(conv, key, inputs@, Ok(m)),
            decreases total - done,
        {
            let ghost before = outs;
            match next_entry(&mut entries) {
                None => {
                    proof {
                        if lawful {
                            assert(all.skip(done as int).len() == 0);
                            assert(group_steps(conv, key, inputs@, bucket_order(all), outs));
                        }
                    }
                    break ;
                },
                Some((bi, kt)) => {
                    proof {
                        assert(before.push(None).drop_last() == before);
                        assert(all.skip(done as int)[0] == all[done as int]);
                        assert(all.skip(done as int).drop_first() == all.skip(done + 1));
                    }
                    match kt.get(&key) {
                        None => {
                            proof {
                                outs = before.push(None);
                            }
                        },
                        Some(t) => {
                            let res = self.conv(bi, t);
                            proof {
                                outs = before.push(Some(res));
                                assert(outs.drop_last() == before);
                                assert(somes(outs).drop_last() == somes(before));
                                if lawful {
                                    assert(bucket_order(all)[done as int] == *bi);
                                    assert(conv(*bi, *t, res));
                                    assert(group_step(conv, key, inputs@, *bi, outs[done as int]));
                                }
                            }
                            match res {
                                Err(e) => {
                                    proof {
                                        if lawful {
                                            assert(group_steps(
                                                conv,
                                                key,
                                                inputs@,
                                                bucket_order(all),
                                                outs,
                                            ));
                                        }
                                    }
                                    return Err(e);
                                },
                                Ok((bo, t2)) => {
                                    m.insert(bo, t2);
                                },
                            }
                        },
                    }
                    done = done + 1;
                    proof {
                        if lawful {
                            assert(bucket_order(all)[done - 1] == *bi);
                            assert(group_step(conv, key, inputs@, *bi, outs[done - 1]));
                        }
                    }
                },
            }
        }
        Ok(m)
    }
}

/// A walk over an ordered map meets every entry once, in ascending order of
/// the keys.
pub proof fn lemma_walk<K: Ord, V>(m: &BTreeMap<K, V>)
    requires
        ordered::<K>(),
        increasing_seq(spec_btree_map_iter(m).remaining().map_values(|kv: (&K, &V)| *kv.0)),
    ensures
        ascending(bucket_order(spec_btree_map_iter(m).remaining()), m@.dom()),
        spec_btree_map_iter(m).remaining().len() == m@.len(),
        forall|i: int|
            0 <= i < spec_btree_map_iter(m).remaining().len() ==> m@.contains_key(
                *(#[trigger] spec_btree_map_iter(m).remaining()[i]).0,
            ) && m@[*spec_btree_map_iter(m).remaining()[i].0] == *spec_btree_map_iter(
                m,
            ).remaining()[i].1,
{
    broadcast use vstd::std_specs::btree::group_btree_axioms;

    let all = spec_btree_map_iter(m).remaining();
    let order = bucket_order(all);
    assert(order =~= all.map_values(|kv: (&K, &V)| *kv.0));
    assert(order.to_set() =~= m@.dom()) by {
        assert forall|k: K| m@.dom().contains(k) implies order.to_set().contains(k) by {
            assert(all.contains((&k, &m@[k])));
            let i = choose|i: int| 0 <= i < all.len() && all[i] == (&k, &m@[k]);
            assert(order[i] == k);
        }
        assert forall|k: K| order.to_set().contains(k) implies m@.dom().contains(k) by {
            let i = choose|i: int| 0 <= i < order.len() && order[i] == k;
            assert(m@.contains_key(*all[i].0));
        }
    }
    order.lemma_no_dup_set_cardinality();
}

/// Takes the next item of a walk that ends: the head of what remains, or
/// nothing once nothing remains.
pub fn next_entry<I: Iterator>(walk: &mut I) -> (ret: Option<I::Item>)
    requires
        (*old(walk)).obeys_prophetic_iter_laws(),
    ensures
        (*final(walk)).obeys_prophetic_iter_laws(),
        (*old(walk)).remaining().len() > 0 ==> ret == Some((*old(walk)).remaining()[0])
            && (*final(walk)).remaining() == (*old(walk)).remaining().drop_first(),
        (*old(walk)).remaining().len() == 0 ==> ret is None
            && (*final(walk)).remaining() == (*old(walk)).remaining(),
{
    walk.next()
}

/// The buckets of the entries that a walk over the map of buckets gives.
pub open spec fn bucket_order<BI, M>(entries: Seq<(&BI, &M)>) -> Seq<BI> {
    entries.map_values(|kv: (&BI, &M)| *kv.0)
}

/// `out` is what the fold makes of one bucket: nothing where the bucket lacks
/// the key, else an outcome of `conv` for the bucket and its value. `conv`
/// holds of a bucket, a value and a result that the conversion can return
/// for them.
pub open spec fn group_step<BI, BO, K, T>(
    conv: spec_fn(BI, T, Result<(BO, T), Status>) -> bool,
    key: K,
    inputs: Map<BI, BTreeMap<K, T>>,
    bucket: BI,
    out: Option<Result<(BO, T), Status>>,
) -> bool {
    if inputs[bucket]@.contains_key(key) {
        out is Some && conv(bucket, inputs[bucket]@[key], out->Some_0)
    } else {
        out is None
    }
}

/// `outs` are the steps of the fold over `order`, up to the first failed
/// conversion and no further.
pub open spec fn group_steps<BI, BO, K, T>(
    conv: spec_fn(BI, T, Result<(BO, T), Status>) -> bool,
    key: K,
    inputs: Map<BI, BTreeMap<K, T>>,
    order: Seq<BI>,
    outs: Seq<Option<Result<(BO, T), Status>>>,
) -> bool {
    &&& outs.len() <= order.len()
    &&& forall|i: int|
        0 <= i < outs.len() ==> group_step(conv, key, inputs, order[i], #[trigger] outs[i])
    &&& forall|i: int| 0 <= i < outs.len() - 1 ==> !((#[trigger] outs[i]) matches Some(Err(_)))
    &&& outs.len() == order.len() || (outs.len() > 0 && outs.last() matches Some(Err(_)))
}

/// `r` is the group of `key`: the buckets are walked in ascending order, and
/// the entries that the conversion returned are drained into a map, or its
/// first error is returned.
pub open spec fn grouped<BI, BO, K, T>(
    conv: spec_fn(BI, T, Result<(BO, T), Status>) -> bool,
    key: K,
    inputs: Map<BI, BTreeMap<K, T>>,
    r: Result<BTreeMap<BO, T>, Status>,
) -> bool {
    exists|order: Seq<BI>, outs: Seq<Option<Result<(BO, T), Status>>>|
        #![trigger group_steps(conv, key, inputs, order, outs)]
        ascending(order, inputs.dom()) && group_steps(conv, key, inputs, order, outs) && map_view(r)
            == drained(somes(outs))
}

/// Nothing is there in a sequence of absences.
pub proof fn lemma_somes_of_nones<T>(s: Seq<Option<T>>)
    requires
        forall|i: int| 0 <= i < s.len() ==> s[i] is None,
    ensures
        somes(s) == Seq::<T>::empty(),
    decreases s.len(),
{
    if s.len() > 0 {
        let front = s.drop_last();
        assert forall|i: int| 0 <= i < front.len() implies front[i] is None by {
            assert(front[i] == s[i]);
        }
        lemma_somes_of_nones(front);
    }
}

/// A key that no bucket has groups to the empty map: absence is no error.
pub proof fn lemma_grouped_absent_key<BI, BO, K, T>(
    conv: spec_fn(BI, T, Result<(BO, T), Status>) -> bool,
    key: K,
    inputs: Map<BI, BTreeMap<K, T>>,
    r: Result<BTreeMap<BO, T>, Status>,
)
    requires
        grouped(conv, key, inputs, r),
        forall|b: BI| inputs.contains_key(b) ==> !(#[trigger] inputs[b])@.contains_key(key),
    ensures
        r is Ok,
        r->Ok_0@ == Map::<BO, T>::empty(),
{
    let (order, outs) = choose|order: Seq<BI>, outs: Seq<Option<Result<(BO, T), Status>>>|
        #![trigger group_steps(conv, key, inputs, order, outs)]
        ascending(order, inputs.dom()) && group_steps(conv, key, inputs, order, outs) && map_view(r)
            == drained(somes(outs));
    assert forall|i: int| 0 <= i < outs.len() implies outs[i] is None by {
        assert(order.to_set().contains(order[i]));
        assert(inputs.contains_key(order[i]));
        assert(group_step(conv, key, inputs, order[i], outs[i]));
    }
    lemma_somes_of_nones(outs);
}

impl<G> Merger for G where G: Grouper, G::BucketI: Clone {
    type Bucket = G::BucketI;

    type K = G::K;

    type T = G::T;

    type U = BTreeMap<G::BucketO, G::T>;

    /// Merges by grouping.
    fn merge(
        &self,
        key: Self::K,
        inputs: &BTreeMap<Self::Bucket, BTreeMap<Self::K, Self::T>>,
    ) -> (r: Result<Self::U, Status>)
        ensures
            call_ensures(G::group, (self, key, inputs), r),
    {
        self.group(key, inputs)
    }
}

/// `r` is what fetching `buckets` in turn gives: each bucket is asked for
/// with a clone of it, the first failure ends the fetch and is returned, and
/// else the maps stand under their buckets, a bucket that comes twice under
/// its later map.
pub open spec fn fetched<S: MemSource>(
    source: &S,
    buckets: Seq<S::Bucket>,
    r: Result<BTreeMap<S::Bucket, BTreeMap<S::K, S::V>>, Status>,
) -> bool where S::Bucket: Clone {
    exists|gets: Seq<Result<(S::Bucket, BTreeMap<S::K, S::V>), Status>>|
        #![trigger fetch_steps(source, buckets, gets)]
        fetch_steps(source, buckets, gets) && map_view(r) == drained(gets)
}

/// `gets` are the answers for `buckets`, each paired with its bucket, up to
/// the first failure and no further.
pub open spec fn fetch_steps<S: MemSource>(
    source: &S,
    buckets: Seq<S::Bucket>,
    gets: Seq<Result<(S::Bucket, BTreeMap<S::K, S::V>), Status>>,
) -> bool where S::Bucket: Clone {
    &&& gets.len() <= buckets.len()
    &&& forall|i: int| 0 <= i < gets.len() ==> fetch_step(source, buckets[i], #[trigger] gets[i])
    &&& forall|i: int| 0 <= i < gets.len() - 1 ==> (#[trigger] gets[i]) is Ok
    &&& gets.len() == buckets.len() || (gets.len() > 0 && gets.last() is Err)
}

/// `get` is the answer for `bucket`, paired with it.
pub open spec fn fetch_step<S: MemSource>(
    source: &S,
    bucket: S::Bucket,
    get: Result<(S::Bucket, BTreeMap<S::K, S::V>), Status>,
) -> bool where S::Bucket: Clone {
    exists|asked: S::Bucket, answer: Result<BTreeMap<S::K, S::V>, Status>|
        #![trigger call_ensures(S::get_all_by_bucket, (source, asked), answer)]
        cloned(bucket, asked) && call_ensures(S::get_all_by_bucket, (source, asked), answer) && get
            == match answer {
            Ok(m) => Ok::<(S::Bucket, BTreeMap<S::K, S::V>), Status>((bucket, m)),
            Err(e) => Err::<(S::Bucket, BTreeMap<S::K, S::V>), Status>(e),
        }
}

/// Fetches every bucket as an ordered map and holds the maps by bucket. The
/// first bucket that cannot be had ends the fetch with its error: without
/// one of the buckets no key can be merged.
pub fn fetch_buckets<S: MemSource>(source: &S, buckets: Vec<S::Bucket>) -> (r: Result<
    BTreeMap<S::Bucket, BTreeMap<S::K, S::V>>,
    Status,
>) where S::Bucket: Clone
    ensures
        ordered::<S::Bucket>() ==> fetched(source, buckets@, r),
{
    let mut bmap: BTreeMap<S::Bucket, BTreeMap<S::K, S::V>> = BTreeMap::new();
    let ghost all = buckets@;
    let ghost mut gets: Seq<Result<(S::Bucket, BTreeMap<S::K, S::V>), Status>> = Seq::empty();
    for bkt in it: buckets.into_iter()
        invariant
            it.seq() == all,
            gets.len() == it.index(),
            forall|i: int| 0 <= i < gets.len() ==> fetch_step(source, all[i], #[trigger] gets[i]),
            forall|i: int| 0 <= i < gets.len() ==> (#[trigger] gets[i]) is Ok,
            ordered::<S::Bucket>() ==> drained(gets) == Ok::<
                Map<S::Bucket, BTreeMap<S::K, S::V>>,
                Status,
            >(bmap@),
    {
        let ghost before = gets;
        let asked = bkt.clone();
        let answer = source.get_all_by_bucket(asked);
        match answer {
            Err(e) => {
                proof {
                    gets = before.push(Err(e));
                    assert(gets.drop_last() == before);
                    assert(fetch_step(source, bkt, gets[it.index()]));
                    assert(fetch_steps(source, all, gets));
                }
                return Err(e);
            },
            Ok(bkv) => {
                proof {
                    gets = before.push(Ok((bkt, bkv)));
                    assert(gets.drop_last() == before);
                    assert(fetch_step(source, bkt, gets[it.index()]));
                }
                bmap.insert(bkt, bkv);
            },
        }
    }
    proof {
        assert(fetch_steps(source, all, gets));
    }
    Ok(bmap)
}

/// `out` is what merging makes of `key`: the key paired with what `merge`
/// returned for a clone of it and the maps, or the error that `merge`
/// returned.
pub open spec fn merged_key<M: Merger>(
    merger: &M,
    key: M::K,
    inputs: &BTreeMap<M::Bucket, BTreeMap<M::K, M::T>>,
    out: Result<(M::K, M::U), Status>,
) -> bool where M::K: Clone {
    exists|asked: M::K, res: Result<M::U, Status>|
        #![trigger call_ensures(M::merge, (merger, asked, inputs), res)]
        cloned(key, asked) && call_ensures(M::merge, (merger, asked, inputs), res) && out == match res {
            Ok(u) => Ok::<(M::K, M::U), Status>((key, u)),
            Err(e) => Err::<(M::K, M::U), Status>(e),
        }
}

/// `out` is `keys` merged key by key, in the same order.
pub open spec fn merged_keys<M: Merger>(
    merger: &M,
    keys: Seq<M::K>,
    inputs: &BTreeMap<M::Bucket, BTreeMap<M::K, M::T>>,
    out: Seq<Result<(M::K, M::U), Status>>,
) -> bool where M::K: Clone {
    out.len() == keys.len() && forall|i: int|
        0 <= i < keys.len() ==> merged_key(merger, keys[i], inputs, #[trigger] out[i])
}

/// Merges every requested key over the fetched maps, each key on its own: a
/// failed merge is the error of that key's row alone.
pub fn merge_keys<M: Merger>(
    merger: &M,
    keys: Vec<M::K>,
    inputs: &BTreeMap<M::Bucket, BTreeMap<M::K, M::T>>,
) -> (out: Vec<Result<(M::K, M::U), Status>>) where M::K: Clone
    ensures
        merged_keys(merger, keys@, inputs, out@),
{
    let mut out: Vec<Result<(M::K, M::U), Status>> = Vec::new();
    let ghost all = keys@;
    for k in it: keys.into_iter()
        invariant
            it.seq() == all,
            merged_keys(merger, all.take(it.index()), inputs, out@),
    {
        let asked = k.clone();
        let res = merger.merge(asked, inputs);
        let row = match res {
            Ok(u) => Ok((k, u)),
            Err(e) => Err(e),
        };
        proof {
            assert(merged_key(merger, k, inputs, row));
        }
        out.push(row);
    }
    proof {
        assert(all.take(all.len() as int) == all);
    }
    out
}

/// A bucket source that answers a request for keys over buckets: it fetches
/// the buckets as ordered maps, then merges each key over them.
pub struct MergedSource<M, S> {
    merger: M,
    source: S,
}

impl<M, S> MergedSource<M, S> where
    M: Merger,
    S::K: Clone,
    S: MemSource<Bucket = M::Bucket, K = M::K, V = M::T>,
 {
    /// The merger of the maps.
    pub closed spec fn merger(&self) -> M {
        self.merger
    }

    /// The source of the maps.
    pub closed spec fn source(&self) -> S {
        self.source
    }

    /// `r` answers a request for `keys` over `buckets`: the error of the
    /// fetch, or one row for each key, in the order of the keys.
    pub open spec fn answers(
        &self,
        keys: Seq<S::K>,
        buckets: Seq<S::Bucket>,
        r: Result<Vec<Result<(S::K, M::U), Status>>, Status>,
    ) -> bool {
        exists|maps: Result<BTreeMap<S::Bucket, BTreeMap<S::K, S::V>>, Status>|
            #![trigger fetched(&self.source(), buckets, maps)]
            fetched(&self.source(), buckets, maps) && match maps {
                Err(e) => r == Err::<Vec<Result<(S::K, M::U), Status>>, Status>(e),
                Ok(m) => r is Ok && merged_keys(&self.merger(), keys, &m, r->Ok_0@),
            }
    }
}

impl<M, S> BucketSource for MergedSource<M, S> where
    M: Merger,
    S::K: Clone,
    S: MemSource<Bucket = M::Bucket, K = M::K, V = M::T>,
 {
    type Bucket = (Vec<S::K>, Vec<S::Bucket>);

    type K = S::K;

    type V = M::U;

    /// Fetches the buckets, then merges each key over them.
    fn get_all_by_bucket(&self, b: Self::Bucket) -> (r: Result<
        Vec<Result<(Self::K, Self::V), Status>>,
        Status,
    >)
        ensures
            ordered::<S::Bucket>() ==> self.answers(b.0@, b.1@, r),
    {
        let (keys, buckets) = b;
        let maps = fetch_buckets(&self.source, buckets);
        proof {
            if ordered::<S::Bucket>() {
                assert(fetched(&self.source(), buckets@, maps));
            }
        }
        match maps {
            Err(e) => Err(e),
            Ok(bmap) => Ok(merge_keys(&self.merger, keys, &bmap)),
        }
    }
}

/// Creates a bucket source that merges the buckets of `source` by key.
pub fn merged_src_new<M, S>(merger: M, source: S) -> (r: MergedSource<M, S>) where
    M: Merger,
    S::K: Clone,
    S: MemSource<Bucket = M::Bucket, K = M::K, V = M::T>,

    ensures
        r.merger() == merger,
        r.source() == source,
{
    MergedSource { merger, source }
}

/// Creates a bucket source that groups the buckets of `source` by key.
pub fn grouped_src_new<G, S>(grouper: G, source: S) -> (r: MergedSource<G, S>) where
    G: Grouper,
    G::BucketI: Clone,
    S::K: Clone,
    S: MemSource<Bucket = G::BucketI, K = G::K, V = G::T>,

    ensures
        r.merger() == grouper,
        r.source() == source,
{
    let merger = grouper;
    MergedSource { merger, source }
}

/// `a` comes before `b` in the order of `K`.
pub open spec fn precedes<K: Ord>(a: K, b: K) -> bool {
    a.cmp_spec(&b) is Less
}

/// Keys of which each comes before every later one are in ascending order,
/// and the other way round.
pub proof fn lemma_increasing<K: Ord>(order: Seq<K>)
    requires
        ordered::<K>(),
    ensures
        increasing_seq(order) <==> forall|i: int, j: int|
            0 <= i < j < order.len() ==> precedes(order[i], order[j]),
{
    vstd::std_specs::btree::axiom_increasing_seq_meaning(order);
    if increasing_seq(order) {
        assert forall|i: int, j: int| 0 <= i < j < order.len() implies precedes(
            order[i],
            order[j],
        ) by {
            assert(order[i].cmp_spec(&order[j]) is Less);
        }
    }
    if forall|i: int, j: int| 0 <= i < j < order.len() ==> precedes(order[i], order[j]) {
        assert forall|i: int, j: int| 0 <= i < j < order.len() implies order[i].cmp_spec(
            &order[j],
        ) is Less by {
            assert(precedes(order[i], order[j]));
        }
    }
}

/// `r` is the entry with the least key, taken out of `before` to leave
/// `after`; or nothing, where `before` has no entry.
pub open spec fn popped_least<K: Ord, V>(before: Map<K, V>, after: Map<K, V>, r: Option<(K, V)>) -> bool {
    match r {
        None => before.dom() == Set::<K>::empty() && after == before,
        Some((k, v)) => {
            &&& before.contains_key(k)
            &&& before[k] == v
            &&& after == before.remove(k)
            &&& forall|other: K| before.contains_key(other) && other != k ==> precedes(k, other)
        },
    }
}

/// Calls `BTreeMap::pop_first`, which removes the entry with the least key
/// from the map and returns it, or returns nothing where the map is empty.
/// The map is one entry shorter after an entry was returned.
#[verifier::external_body]
fn pop_first<K: Ord, V>(m: &mut BTreeMap<K, V>) -> (r: Option<(K, V)>)
    ensures
        r is Some ==> final(m).len() + 1 == old(m).len(),
        ordered::<K>() ==> popped_least(old(m)@, final(m)@, r),
{
    m.pop_first()
}

/// The keys of entries, in their order.
pub open spec fn keys_of<K, V>(entries: Seq<(K, V)>) -> Seq<K> {
    entries.map_values(|e: (K, V)| e.0)
}

/// `entries` are the entries of `m`, once each and in ascending order of the
/// keys.
pub open spec fn entries_of<K, V>(m: Map<K, V>, entries: Seq<(K, V)>) -> bool {
    &&& ascending(keys_of(entries), m.dom())
    &&& forall|i: int| 0 <= i < entries.len() ==> m[(#[trigger] entries[i]).0] == entries[i].1
}

/// Takes the entries out of an ordered map, in ascending order of the keys.
pub fn into_entries<K: Ord, V>(m: BTreeMap<K, V>) -> (entries: Vec<(K, V)>)
    ensures
        ordered::<K>() ==> entries_of(m@, entries@),
{
    broadcast use vstd::std_specs::btree::group_btree_axioms;

    let ghost initial = m@;
    let ghost lawful = ordered::<K>();
    let mut rest = m;
    let mut entries: Vec<(K, V)> = Vec::new();
    loop
        invariant
            lawful == ordered::<K>(),
            lawful ==> forall|i: int, j: int|
                #![trigger entries@[i], entries@[j]]
                0 <= i < j < entries@.len() ==> precedes(entries@[i].0, entries@[j].0),
            lawful ==> forall|i: int, other: K|
                #![trigger entries@[i], rest@.contains_key(other)]
                0 <= i < entries@.len() && rest@.contains_key(other) ==> precedes(
                    entries@[i].0,
                    other,
                ),
            lawful ==> forall|i: int|
                0 <= i < entries@.len() ==> initial.contains_key((#[trigger] entries@[i]).0)
                    && initial[entries@[i].0] == entries@[i].1 && !rest@.contains_key(
                    entries@[i].0,
                ),
            lawful ==> forall|k: K| #[trigger]
                initial.contains_key(k) ==> rest@.contains_key(k) || keys_of(entries@).contains(k),
            lawful ==> forall|k: K| #[trigger]
                rest@.contains_key(k) ==> initial.contains_key(k) && initial[k] == rest@[k],
            lawful ==> keys_of(entries@).no_duplicates(),
        ensures
            lawful ==> entries_of(initial, entries@),
        decreases rest.len(),
    {
        let ghost held = entries@;
        let ghost before = rest@;
        match pop_first(&mut rest) {
            None => {
                proof {
                    if lawful {
                        let order = keys_of(entries@);
                        assert forall|i: int, j: int| 0 <= i < j < order.len() implies precedes(
                            order[i],
                            order[j],
                        ) by {
                            assert(precedes(entries@[i].0, entries@[j].0));
                        }
                        lemma_increasing(order);
                        assert(order.to_set() =~= initial.dom()) by {
                            assert forall|k: K| order.to_set().contains(k) implies initial.dom().contains(
                                k,
                            ) by {
                                let i = choose|i: int| 0 <= i < order.len() && order[i] == k;
                                assert(initial.contains_key(entries@[i].0));
                            }
                            assert forall|k: K| initial.dom().contains(k) implies order.to_set().contains(
                                k,
                            ) by {
                                assert(initial.contains_key(k));
                                assert(!rest@.contains_key(k));
                            }
                        }
                    }
                }
                break ;
            },
            Some(entry) => {
                entries.push(entry);
                proof {
                    if lawful {
                        let n = held.len() as int;
                        let k = entry.0;
                        assert(entries@[n] == entry);
                        assert forall|i: int| 0 <= i < n implies entries@[i] == held[i] by {}
                        assert forall|i: int, j: int|
                            #![trigger entries@[i], entries@[j]]
                            0 <= i < j < entries@.len() implies precedes(
                            entries@[i].0,
                            entries@[j].0,
                        ) by {
                            if j == n {
                                assert(before.contains_key(k));
                                assert(precedes(held[i].0, k));
                            } else {
                                assert(precedes(held[i].0, held[j].0));
                            }
                        }
                        assert forall|i: int, other: K|
                            #![trigger entries@[i], rest@.contains_key(other)]
                            0 <= i < entries@.len() && rest@.contains_key(other) implies precedes(
                            entries@[i].0,
                            other,
                        ) by {
                            assert(before.contains_key(other));
                            if i < n {
                                assert(precedes(held[i].0, other));
                            }
                        }
                        assert forall|k2: K| #[trigger] initial.contains_key(k2) implies rest@.contains_key(
                            k2,
                        ) || keys_of(entries@).contains(k2) by {
                            if k2 == k {
                                assert(keys_of(entries@)[n] == k);
                            } else if before.contains_key(k2) {
                            } else {
                                assert(keys_of(held).contains(k2));
                                let i = choose|i: int| 0 <= i < n && keys_of(held)[i] == k2;
                                assert(keys_of(entries@)[i] == k2);
                            }
                        }
                        assert(keys_of(entries@) =~= keys_of(held).push(k));
                        assert(keys_of(entries@).no_duplicates()) by {
                            assert forall|i: int, j: int|
                                0 <= i < keys_of(entries@).len() && 0 <= j < keys_of(entries@).len()
                                    && i != j implies keys_of(entries@)[i] != keys_of(entries@)[j] by {
                                if i < n && j < n {
                                    assert(keys_of(held)[i] != keys_of(held)[j]);
                                } else if i < n {
                                    assert(!before.contains_key(held[i].0));
                                } else if j < n {
                                    assert(!before.contains_key(held[j].0));
                                }
                            }
                        }
                    }
                }
            },
        }
    }
    entries
}

} // verus!
