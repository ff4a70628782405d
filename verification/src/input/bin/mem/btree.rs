//! The nearest-key join: keys of a map are replaced by the nearest of a set
//! of candidate keys, within a range around each key.

use core::ops::RangeInclusive;
use std::collections::{BTreeMap, BTreeSet};
use std::sync::Arc;
use tonic::Status;
use vstd::prelude::*;
use vstd::std_specs::btree::{increasing_seq, spec_btree_keys_iter};
use vstd::std_specs::cmp::OrdSpec;
use vstd::std_specs::iter::IteratorSpec;
use vstd::std_specs::range::ContainsSpec;

use crate::input::bin::mem::key::{apart, clamped, IntKey};
use crate::input::join::mem::btree::{
    ascending, drained, entries_of, into_entries, keys_of, lemma_increasing, map_view, next_entry,
    ordered, precedes, somes, MemSource,
};
use crate::status::{invalid_argument_status, status_invalid_argument};

verus! {

/// Key replacer.
pub trait Nearest {
    type K: Ord;

    /// Finds the key of `m` that is nearest to `k`.
    fn get_nearest(&self, k: &Self::K, m: &BTreeSet<Self::K>) -> Result<Self::K, Status>;
}

/// Range container.
pub trait Range {
    type K: Ord;

    /// Gets the bounds around a key, both included (for example from
    /// `k - 100` to `k + 100`).
    fn range(&self, key: &Self::K) -> RangeInclusive<Self::K>;
}

/// Gets the key with the nearest score.
pub trait ComputeNearest {
    type K: Ord;

    type Score: Ord;

    /// Gets the nearest key from pairs of a score and a key.
    fn nearest(&self, pairs: Vec<(Self::Score, Self::K)>) -> Result<Self::K, Status>;
}

/// Computes a score by comparing keys.
pub trait ComputeDiff {
    type K: Ord;

    type Score: Ord;

    fn compute_score(&self, a: &Self::K, b: &Self::K) -> Self::Score;
}

/// If `K` is ordered, so are references to it.
pub proof fn lemma_ordered_refs<K: Ord>()
    requires
        ordered::<K>(),
    ensures
        ordered::<&K>(),
{
    reveal(vstd::laws_eq::obeys_eq_spec_properties);
    reveal(vstd::laws_cmp::obeys_partial_cmp_spec_properties);
    reveal(vstd::laws_cmp::obeys_cmp_partial_ord);
    reveal(vstd::laws_cmp::obeys_cmp_ord);
}

/// A walk over an ordered set meets every key once, in ascending order.
pub proof fn lemma_set_walk<K: Ord>(m: &BTreeSet<K>)
    requires
        ordered::<K>(),
    ensures
        ascending(spec_btree_keys_iter(m).remaining().unref(), m@),
        spec_btree_keys_iter(m).remaining().len() == m@.len(),
{
    broadcast use vstd::std_specs::btree::group_btree_axioms;

    lemma_ordered_refs::<K>();
    let walk = spec_btree_keys_iter(m).remaining();
    let order = walk.unref();
    assert(increasing_seq(walk));
    vstd::std_specs::btree::axiom_increasing_seq_meaning(walk);
    vstd::std_specs::btree::axiom_increasing_seq_meaning(order);
    assert forall|i: int, j: int| 0 <= i < j < order.len() implies order[i].cmp_spec(
        &order[j],
    ) is Less by {
        assert(OrdSpec::cmp_spec(&walk[i], &walk[j]) is Less);
    }
    assert(increasing_seq(order));
    assert(order.to_set() == m@);
    assert(order.len() == m@.len());
    order.lemma_no_dup_set_cardinality();
}

/// Whether a range of `K` holds a key is decided as its order says.
pub open spec fn ranged<K: Ord>() -> bool {
    <RangeInclusive<K> as ContainsSpec<K, K>>::obeys_contains()
}

/// An ordered key type can be asked whether a range holds a key.
pub proof fn lemma_ordered_ranges<K: Ord>()
    requires
        ordered::<K>(),
    ensures
        ranged::<K>(),
{
    reveal(vstd::laws_cmp::obeys_cmp_partial_ord);
}

/// `step` is what the search makes of one candidate: nothing where the range
/// lacks it, else a score that `compute_score` returned for the key and the
/// candidate, with a clone of the candidate.
pub open spec fn scored<T>(
    t: &T,
    k: <T as Range>::K,
    range: RangeInclusive<<T as Range>::K>,
    candidate: <T as Range>::K,
    step: Option<(<T as ComputeNearest>::Score, <T as Range>::K)>,
) -> bool where
    T: Range,
    <T as Range>::K: Clone,
    T: ComputeNearest<K = <T as Range>::K>,
    T: ComputeDiff<K = <T as Range>::K, Score = <T as ComputeNearest>::Score>,
 {
    if range.contains_spec(&candidate) {
        step is Some && call_ensures(T::compute_score, (t, &k, &candidate), step->Some_0.0)
            && cloned(candidate, step->Some_0.1)
    } else {
        step is None
    }
}

/// `r` is the nearest of `keys` to `k`: the candidates are walked in
/// ascending order, those within the range that `range` returned are scored,
/// and `r` is what `nearest` returned for the scored candidates in that
/// order.
pub open spec fn found_nearest<T>(
    t: &T,
    k: <T as Range>::K,
    keys: Set<<T as Range>::K>,
    r: Result<<T as Range>::K, Status>,
) -> bool where
    T: Range,
    <T as Range>::K: Clone,
    T: ComputeNearest<K = <T as Range>::K>,
    T: ComputeDiff<K = <T as Range>::K, Score = <T as ComputeNearest>::Score>,
 {
    exists|
        range: RangeInclusive<<T as Range>::K>,
        order: Seq<<T as Range>::K>,
        steps: Seq<Option<(<T as ComputeNearest>::Score, <T as Range>::K)>>,
        pairs: Vec<(<T as ComputeNearest>::Score, <T as Range>::K)>,
    |
        #![trigger call_ensures(T::range, (t, &k), range), ascending(order, keys), somes(steps), call_ensures(T::nearest, (t, pairs), r)]
        {
            &&& call_ensures(T::range, (t, &k), range)
            &&& ascending(order, keys)
            &&& steps.len() == order.len()
            &&& forall|i: int|
                0 <= i < steps.len() ==> scored(t, k, range, order[i], #[trigger] steps[i])
            &&& pairs@ == somes(steps)
            &&& call_ensures(T::nearest, (t, pairs), r)
        }
}

impl<T> Nearest for T where
    T: Range,
    <T as Range>::K: Clone,
    T: ComputeNearest<K = <T as Range>::K>,
    T: ComputeDiff<K = <T as Range>::K, Score = <T as ComputeNearest>::Score>,
 {
    type K = <T as Range>::K;

    /// Scores the keys of `m` that lie within the range around `k`, in
    /// ascending order, and lets `nearest` choose among them.
    fn get_nearest(&self, k: &Self::K, m: &BTreeSet<Self::K>) -> (r: Result<Self::K, Status>)
        ensures
            ordered::<<T as Range>::K>() ==> found_nearest(self, *k, m@, r),
    {
        broadcast use vstd::std_specs::btree::group_btree_axioms;

        let ghost lawful = ordered::<<T as Range>::K>();
        let range = self.range(k);
        let mut pairs: Vec<(<T as ComputeNearest>::Score, <T as Range>::K)> = Vec::new();
        let ghost mut steps: Seq<Option<(<T as ComputeNearest>::Score, <T as Range>::K)>> =
            Seq::empty();
        let total = m.len();
        let mut done: usize = 0;
        let mut walk = m.iter();
        let ghost all = walk.remaining();
        proof {
            if lawful {
                lemma_set_walk(m);
                lemma_ordered_ranges::<<T as Range>::K>();
            }
        }
        while done < total
            invariant
                lawful == ordered::<<T as Range>::K>(),
                walk.obeys_prophetic_iter_laws(),
                done <= total,
                done <= all.len(),
                lawful ==> total == all.len(),
                walk.remaining() == all.skip(done as int),
                lawful ==> ascending(all.unref(), m@),
                lawful ==> ranged::<<T as Range>::K>(),
                steps.len() == done,
                lawful ==> forall|i: int|
                    0 <= i < steps.len() ==> scored(
                        self,
                        *k,
                        range,
                        all.unref()[i],
                        #[trigger] steps[i],
                    ),
                pairs@ == somes(steps),
            ensures
                lawful ==> done == all.len(),
            decreases total - done,
        {
            let ghost before = steps;
            match next_entry(&mut walk) {
                None => {
                    proof {
                        assert(all.skip(done as int).len() == 0);
                    }
                    break ;
                },
                Some(key) => {
                    proof {
                        assert(all.skip(done as int)[0] == all[done as int]);
                        assert(all.skip(done as int).drop_first() == all.skip(done + 1));
                        assert(all.unref()[done as int] == *key);
                    }
                    if range.contains(key) {
                        let score = self.compute_score(k, key);
                        let candidate = key.clone();
                        proof {
                            steps = before.push(Some((score, candidate)));
                            assert(steps.drop_last() == before);
                        }
                        pairs.push((score, candidate));
                    } else {
                        proof {
                            steps = before.push(None);
                            assert(steps.drop_last() == before);
                        }
                    }
                    done = done + 1;
                },
            }
        }
        let r = self.nearest(pairs);
        proof {
            if lawful {
                assert(steps.len() == all.unref().len());
                assert(call_ensures(T::range, (self, k), range));
                assert(ascending(all.unref(), m@));
                assert(found_nearest(self, *k, m@, r));
            }
        }
        r
    }
}

/// A range around a key, given by two offsets: from the key less
/// `lbi_offset` to the key plus `ubi_offset`, both bounds included, each held
/// within the limits of the key type. It scores a candidate by its distance
/// to the key, and the nearest candidate is the one with the least score.
pub struct RangeII<K> {
    pub lbi_offset: K,
    pub ubi_offset: K,
}

impl<K> Clone for RangeII<K> where K: Clone {
    fn clone(&self) -> (r: Self)
        ensures
            cloned(self.lbi_offset, r.lbi_offset),
            cloned(self.ubi_offset, r.ubi_offset),
    {
        Self { lbi_offset: self.lbi_offset.clone(), ubi_offset: self.ubi_offset.clone() }
    }
}

impl<K: IntKey> RangeII<K> {
    /// The lower bound of the range around `key`.
    pub open spec fn low(&self, key: K) -> int {
        clamped(key.number() - self.lbi_offset.number(), K::least(), K::greatest())
    }

    /// The upper bound of the range around `key`.
    pub open spec fn high(&self, key: K) -> int {
        clamped(key.number() + self.ubi_offset.number(), K::least(), K::greatest())
    }
}

impl<K: IntKey> Range for RangeII<K> {
    type K = K;

    /// The range around `key`, in saturating arithmetic.
    fn range(&self, key: &K) -> (r: RangeInclusive<K>)
        ensures
            r@.start.number() == self.low(*key),
            r@.end.number() == self.high(*key),
            !r@.exhausted,
    {
        let lbi: K = key.sub_saturating(self.lbi_offset);
        let ubi: K = key.add_saturating(self.ubi_offset);
        RangeInclusive::new(lbi, ubi)
    }
}

impl<K: IntKey> ComputeDiff for RangeII<K> {
    type K = K;

    type Score = K::Score;

    /// The distance between the two keys.
    fn compute_score(&self, a: &K, b: &K) -> (s: K::Score)
        ensures
            K::magnitude(s) == apart(a.number(), b.number()),
    {
        a.distance(*b)
    }
}

/// The index of the pair that wins among `scores`: the least score, and
/// among equal least scores the last.
pub open spec fn winner(scores: Seq<int>) -> int
    decreases scores.len(),
{
    if scores.len() <= 1 {
        0
    } else {
        let w = winner(scores.drop_last());
        if scores[w] < scores.last() {
            w
        } else {
            scores.len() - 1
        }
    }
}

/// The winner has the least score, and every later pair has a greater one.
pub proof fn lemma_winner(scores: Seq<int>)
    requires
        scores.len() > 0,
    ensures
        0 <= winner(scores) < scores.len(),
        forall|i: int| 0 <= i < scores.len() ==> scores[winner(scores)] <= #[trigger] scores[i],
        forall|i: int|
            winner(scores) < i < scores.len() ==> scores[winner(scores)] < #[trigger] scores[i],
    decreases scores.len(),
{
    if scores.len() > 1 {
        let front = scores.drop_last();
        lemma_winner(front);
        let w = winner(front);
        assert(front[w] == scores[w]);
        assert forall|i: int| 0 <= i < scores.len() implies scores[winner(scores)]
            <= #[trigger] scores[i] by {
            if i < front.len() {
                assert(front[i] == scores[i]);
            }
        }
        assert forall|i: int| winner(scores) < i < scores.len() implies scores[winner(scores)]
            < #[trigger] scores[i] by {
            if i < front.len() {
                assert(front[i] == scores[i]);
            }
        }
    }
}

/// The scores of the pairs as numbers.
pub open spec fn magnitudes<K: IntKey>(pairs: Seq<(K::Score, K)>) -> Seq<int> {
    pairs.map_values(|p: (K::Score, K)| K::magnitude(p.0))
}

impl<K: IntKey> ComputeNearest for RangeII<K> {
    type K = K;

    type Score = K::Score;

    /// The key of the pair with the least score. Of two pairs with the same
    /// score the later one wins. No pair at all is the error "empty pairs".
    fn nearest(&self, pairs: Vec<(K::Score, K)>) -> (r: Result<K, Status>)
        ensures
            pairs@.len() == 0 ==> r == Err::<K, Status>(invalid_argument_status("empty pairs"@)),
            pairs@.len() > 0 ==> r == Ok::<K, Status>(pairs@[winner(magnitudes::<K>(pairs@))].1),
    {
        let mut min: Option<(K::Score, K)> = None;
        let ghost all = pairs@;
        for pair in it: pairs.into_iter()
            invariant
                it.seq() == all,
                it.index() == 0 ==> min is None,
                it.index() > 0 ==> min == Some(
                    all[winner(magnitudes::<K>(all.take(it.index())))],
                ),
        {
            proof {
                let upto = all.take(it.index() + 1);
                assert(upto.drop_last() == all.take(it.index()));
                assert(magnitudes::<K>(upto).drop_last() == magnitudes::<K>(all.take(it.index())));
                if it.index() > 0 {
                    lemma_winner(magnitudes::<K>(all.take(it.index())));
                }
            }
            min = match min {
                None => Some(pair),
                Some(old) => {
                    if K::closer(old.0, pair.0) {
                        Some(old)
                    } else {
                        Some(pair)
                    }
                },
            };
        }
        proof {
            assert(all.take(all.len() as int) == all);
        }
        match min {
            Some(p) => Ok(p.1),
            None => Err(status_invalid_argument("empty pairs")),
        }
    }
}

/// `finds` are the answers of `near` for the keys of `order`, one each and
/// in order, up to the first failure and no further.
pub open spec fn replaced_steps<N: Nearest>(
    near: &N,
    keys: &BTreeSet<N::K>,
    order: Seq<N::K>,
    finds: Seq<Result<N::K, Status>>,
) -> bool {
    &&& finds.len() <= order.len()
    &&& forall|i: int|
        0 <= i < finds.len() ==> call_ensures(
            N::get_nearest,
            (near, &order[i], keys),
            #[trigger] finds[i],
        )
    &&& forall|i: int| 0 <= i < finds.len() - 1 ==> (#[trigger] finds[i]) is Ok
    &&& finds.len() == order.len() || (finds.len() > 0 && finds.last() is Err)
}

/// The entries with each key replaced by what was found for it, or the
/// failure of the search in the place of the entry.
pub open spec fn replaced_rows<K, V>(entries: Seq<(K, V)>, finds: Seq<Result<K, Status>>) -> Seq<
    Result<(K, V), Status>,
> {
    Seq::new(
        finds.len(),
        |i: int|
            match finds[i] {
                Ok(k) => Ok((k, entries[i].1)),
                Err(e) => Err(e),
            },
    )
}

/// `r` is `original` with every key replaced by the nearest of `keys`: the
/// entries are walked in ascending order of their keys, the first key for
/// which none is found ends the walk with that failure, and else the values
/// stand under the keys found, a key found twice under its later value.
pub open spec fn replaced<N: Nearest, V>(
    near: &N,
    keys: &BTreeSet<N::K>,
    original: Map<N::K, V>,
    r: Result<BTreeMap<N::K, V>, Status>,
) -> bool {
    exists|entries: Seq<(N::K, V)>, finds: Seq<Result<N::K, Status>>|
        #![trigger entries_of(original, entries), replaced_steps(near, keys, keys_of(entries), finds)]
        entries_of(original, entries) && replaced_steps(near, keys, keys_of(entries), finds)
            && map_view(r) == drained(replaced_rows(entries, finds))
}

/// Rebuilds a map under the nearest keys: each key is replaced by the
/// nearest of `keys`, the values are left as they are.
pub fn replace_keys<N: Nearest, V>(
    near: &N,
    keys: &BTreeSet<N::K>,
    original: BTreeMap<N::K, V>,
) -> (r: Result<BTreeMap<N::K, V>, Status>)
    ensures
        ordered::<N::K>() ==> replaced(near, keys, original@, r),
{
    let ghost lawful = ordered::<N::K>();
    let ghost held = original@;
    let entries = into_entries(original);
    let ghost all = entries@;
    let mut m: BTreeMap<N::K, V> = BTreeMap::new();
    let ghost mut finds: Seq<Result<N::K, Status>> = Seq::empty();
    for entry in it: entries.into_iter()
        invariant
            lawful == ordered::<N::K>(),
            held == original@,
            it.seq() == all,
            finds.len() == it.index(),
            forall|i: int|
                0 <= i < finds.len() ==> call_ensures(
                    N::get_nearest,
                    (near, &keys_of(all)[i], keys),
                    #[trigger] finds[i],
                ),
            forall|i: int| 0 <= i < finds.len() ==> (#[trigger] finds[i]) is Ok,
            lawful ==> entries_of(held, all),
            lawful ==> drained(replaced_rows(all, finds)) == Ok::<Map<N::K, V>, Status>(m@),
    {
        let ghost before = finds;
        let (key, val) = entry;
        let found = near.get_nearest(&key, keys);
        proof {
            finds = before.push(found);
            assert(keys_of(all)[it.index()] == key);
            assert(replaced_rows(all, finds).drop_last() == replaced_rows(all, before));
        }
        match found {
            Err(e) => {
                proof {
                    assert(replaced_steps(near, keys, keys_of(all), finds));
                    assert(replaced_rows(all, finds).last() == Err::<(N::K, V), Status>(e));
                }
                return Err(e);
            },
            Ok(k) => {
                proof {
                    assert(replaced_rows(all, finds).last() == Ok::<(N::K, V), Status>((k, val)));
                }
                m.insert(k, val);
            },
        }
    }
    proof {
        assert(replaced_steps(near, keys, keys_of(all), finds));
    }
    Ok(m)
}

/// A source of ordered maps whose keys are those of another, each replaced
/// by the nearest of a set of candidate keys that comes with the request.
pub struct BinSource<M, N> {
    msrc: M,
    near: N,
}

impl<M, N> BinSource<M, N> where M: MemSource, M::K: Clone, N: Nearest<K = M::K> {
    /// The source of the maps.
    pub closed spec fn msrc(&self) -> M {
        self.msrc
    }

    /// The key replacer.
    pub closed spec fn near(&self) -> N {
        self.near
    }

    /// `r` answers a request for `bkt` with the candidates `keys`: the
    /// source's failure, or its map under the nearest keys.
    pub open spec fn answers(
        &self,
        keys: &BTreeSet<M::K>,
        bkt: M::Bucket,
        r: Result<BTreeMap<M::K, M::V>, Status>,
    ) -> bool {
        exists|inner: Result<BTreeMap<M::K, M::V>, Status>|
            #![trigger call_ensures(M::get_all_by_bucket, (&self.msrc(), bkt), inner)]
            call_ensures(M::get_all_by_bucket, (&self.msrc(), bkt), inner) && match inner {
                Err(e) => r == Err::<BTreeMap<M::K, M::V>, Status>(e),
                Ok(original) => replaced(&self.near(), keys, original@, r),
            }
    }
}

impl<M, N> MemSource for BinSource<M, N> where M: MemSource, M::K: Clone, N: Nearest<K = M::K> {
    type Bucket = (Arc<BTreeSet<Self::K>>, M::Bucket);

    type K = M::K;

    type V = M::V;

    /// Gets the map of the bucket and rebuilds it under the nearest keys.
    fn get_all_by_bucket(&self, b: Self::Bucket) -> (r: Result<
        BTreeMap<Self::K, Self::V>,
        Status,
    >)
        ensures
            ordered::<M::K>() ==> self.answers(&*b.0, b.1, r),
    {
        let (keys, bkt) = b;
        let br: &BTreeSet<Self::K> = &keys;
        match self.msrc.get_all_by_bucket(bkt) {
            Err(e) => Err(e),
            Ok(original) => replace_keys(&self.near, br, original),
        }
    }
}

/// Creates a source of ordered maps from a key replacer and a source of
/// ordered maps.
pub fn mem_src_bin_new<M, N>(msrc: M, near: N) -> (r: BinSource<M, N>) where
    M: MemSource,
    M::K: Clone,
    N: Nearest<K = M::K>,

    ensures
        r.msrc() == msrc,
        r.near() == near,
{
    BinSource { msrc, near }
}

/// The candidate `c` lies within the range of `t` around `k`.
pub open spec fn in_bounds<K: IntKey>(t: &RangeII<K>, k: K, c: K) -> bool {
    t.low(k) <= c.number() <= t.high(k)
}

/// `step` is what the search of `t` makes of the candidate `c`: nothing
/// where the range lacks it, else its distance to `k` with the candidate.
pub open spec fn measured<K: IntKey>(t: &RangeII<K>, k: K, c: K, step: Option<(K::Score, K)>) -> bool {
    if in_bounds(t, k, c) {
        step is Some && step->Some_0.1 == c && K::magnitude(step->Some_0.0) == apart(
            k.number(),
            c.number(),
        )
    } else {
        step is None
    }
}

/// The pairs that are there in measured steps over ascending candidates are
/// the candidates within the range, with their distances, in ascending
/// order.
pub proof fn lemma_measured_pairs<K: IntKey>(
    t: &RangeII<K>,
    k: K,
    order: Seq<K>,
    steps: Seq<Option<(K::Score, K)>>,
)
    requires
        steps.len() == order.len(),
        forall|i: int, j: int| 0 <= i < j < order.len() ==> order[i].number() < order[j].number(),
        forall|i: int| 0 <= i < steps.len() ==> measured(t, k, order[i], #[trigger] steps[i]),
    ensures
        forall|p: int|
            0 <= p < somes(steps).len() ==> order.contains((#[trigger] somes(steps)[p]).1)
                && in_bounds(t, k, somes(steps)[p].1) && K::magnitude(somes(steps)[p].0) == apart(
                k.number(),
                somes(steps)[p].1.number(),
            ),
        forall|i: int|
            0 <= i < order.len() && in_bounds(t, k, #[trigger] order[i]) ==> exists|p: int|
                0 <= p < somes(steps).len() && (#[trigger] somes(steps)[p]).1 == order[i],
        forall|p: int, q: int|
            0 <= p < q < somes(steps).len() ==> (#[trigger] somes(steps)[p]).1.number() < (
            #[trigger] somes(steps)[q]).1.number(),
    decreases steps.len(),
{
    if steps.len() > 0 {
        let n = steps.len() - 1;
        let front = steps.drop_last();
        let before = order.drop_last();
        assert forall|i: int| 0 <= i < front.len() implies measured(
            t,
            k,
            before[i],
            #[trigger] front[i],
        ) by {
            assert(front[i] == steps[i]);
            assert(before[i] == order[i]);
        }
        assert forall|i: int, j: int| 0 <= i < j < before.len() implies before[i].number()
            < before[j].number() by {
            assert(before[i] == order[i]);
            assert(before[j] == order[j]);
        }
        lemma_measured_pairs(t, k, before, front);
        let pairs = somes(steps);
        let held = somes(front);
        assert(measured(t, k, order[n], steps[n]));
        assert forall|p: int| 0 <= p < held.len() implies order.contains((#[trigger] held[p]).1)
            && held[p].1.number() < order[n].number() by {
            assert(before.contains(held[p].1));
            let i = choose|i: int| 0 <= i < before.len() && before[i] == held[p].1;
            assert(order[i] == before[i]);
        }
        match steps[n] {
            None => {
                assert(pairs == held);
                assert forall|i: int|
                    0 <= i < order.len() && in_bounds(t, k, #[trigger] order[i]) implies exists|
                    p: int,
                |
                    0 <= p < pairs.len() && (#[trigger] pairs[p]).1 == order[i] by {
                    assert(i < n);
                    assert(before[i] == order[i]);
                }
            },
            Some(x) => {
                assert(pairs == held.push(x));
                assert(order[n] == x.1);
                assert forall|p: int| 0 <= p < pairs.len() implies order.contains(
                    (#[trigger] pairs[p]).1,
                ) && in_bounds(t, k, pairs[p].1) && K::magnitude(pairs[p].0) == apart(
                    k.number(),
                    pairs[p].1.number(),
                ) by {
                    if p < held.len() {
                        assert(pairs[p] == held[p]);
                    }
                }
                assert forall|i: int|
                    0 <= i < order.len() && in_bounds(t, k, #[trigger] order[i]) implies exists|
                    p: int,
                |
                    0 <= p < pairs.len() && (#[trigger] pairs[p]).1 == order[i] by {
                    if i < n {
                        assert(before[i] == order[i]);
                        let p = choose|p: int|
                            0 <= p < held.len() && (#[trigger] held[p]).1 == before[i];
                        assert(pairs[p] == held[p]);
                    } else {
                        assert(pairs[held.len() as int] == x);
                    }
                }
                assert forall|p: int, q: int| 0 <= p < q < pairs.len() implies (
                #[trigger] pairs[p]).1.number() < (#[trigger] pairs[q]).1.number() by {
                    assert(pairs[p] == held[p]);
                    if q < held.len() {
                        assert(pairs[q] == held[q]);
                    }
                }
            },
        }
    }
}

/// What a `RangeII` finds is the closest candidate within its range around
/// the key, bounds included, and of two candidates equally close the greater
/// one. It fails, with "empty pairs", exactly when no candidate lies within
/// the range.
pub proof fn lemma_range_ii_nearest<K: IntKey>(t: &RangeII<K>, k: K, keys: Set<K>, r: Result<K, Status>)
    requires
        found_nearest(t, k, keys, r),
    ensures
        r matches Ok(c) ==> keys.contains(c) && in_bounds(t, k, c) && forall|other: K|
            keys.contains(other) && #[trigger] in_bounds(t, k, other) ==> apart(
                k.number(),
                c.number(),
            ) < apart(k.number(), other.number()) || (apart(k.number(), c.number()) == apart(
                k.number(),
                other.number(),
            ) && other.number() <= c.number()),
        r matches Err(e) ==> e == invalid_argument_status("empty pairs"@) && forall|other: K|
            keys.contains(other) ==> !#[trigger] in_bounds(t, k, other),
{
    let (range, order, steps, pairs) = choose|
        range: RangeInclusive<K>,
        order: Seq<K>,
        steps: Seq<Option<(K::Score, K)>>,
        pairs: Vec<(K::Score, K)>,
    |
        #![trigger call_ensures(<RangeII<K> as Range>::range, (t, &k), range), ascending(order, keys), somes(steps), call_ensures(<RangeII<K> as ComputeNearest>::nearest, (t, pairs), r)]
        {
            &&& call_ensures(<RangeII<K> as Range>::range, (t, &k), range)
            &&& ascending(order, keys)
            &&& steps.len() == order.len()
            &&& forall|i: int|
                0 <= i < steps.len() ==> scored(t, k, range, order[i], #[trigger] steps[i])
            &&& pairs@ == somes(steps)
            &&& call_ensures(<RangeII<K> as ComputeNearest>::nearest, (t, pairs), r)
        };
    K::lemma_order(k, k);
    lemma_increasing(order);
    assert forall|i: int, j: int| 0 <= i < j < order.len() implies order[i].number()
        < order[j].number() by {
        assert(precedes(order[i], order[j]));
        lemma_precedes_number(order[i], order[j]);
    }
    assert forall|i: int| 0 <= i < steps.len() implies measured(
        t,
        k,
        order[i],
        #[trigger] steps[i],
    ) by {
        assert(scored(t, k, range, order[i], steps[i]));
        lemma_contains_number(range, order[i]);
        if steps[i] is Some {
            K::lemma_order(order[i], steps[i]->Some_0.1);
        }
    }
    lemma_measured_pairs(t, k, order, steps);
    let found = somes(steps);
    if found.len() > 0 {
        let scores = magnitudes::<K>(found);
        lemma_winner(scores);
        let w = winner(scores);
        let c = found[w].1;
        assert(order.contains(c));
        assert(order.to_set().contains(c));
        assert forall|other: K| keys.contains(other) && #[trigger] in_bounds(t, k, other) implies apart(
            k.number(),
            c.number(),
        ) < apart(k.number(), other.number()) || (apart(k.number(), c.number()) == apart(
            k.number(),
            other.number(),
        ) && other.number() <= c.number()) by {
            assert(order.to_set().contains(other));
            let i = choose|i: int| 0 <= i < order.len() && order[i] == other;
            let q = choose|q: int| 0 <= q < found.len() && (#[trigger] found[q]).1 == order[i];
            assert(scores[q] == K::magnitude(found[q].0));
            assert(scores[w] == K::magnitude(found[w].0));
            if q < w {
                assert(found[q].1.number() < found[w].1.number());
            }
        }
    } else {
        assert forall|other: K| keys.contains(other) implies !#[trigger] in_bounds(t, k, other) by {
            assert(order.to_set().contains(other));
            let i = choose|i: int| 0 <= i < order.len() && order[i] == other;
            if in_bounds(t, k, order[i]) {
                let p = choose|p: int|
                    0 <= p < found.len() && (#[trigger] found[p]).1 == order[i];
            }
        }
    }
}

/// A key that comes before another has the lesser number.
pub proof fn lemma_precedes_number<K: IntKey>(a: K, b: K)
    ensures
        precedes(a, b) <==> a.number() < b.number(),
{
    K::lemma_order(a, b);
}

/// A range holds a key exactly when the key's number lies within the
/// numbers of its bounds.
pub proof fn lemma_contains_number<K: IntKey>(range: RangeInclusive<K>, c: K)
    requires
        !range@.exhausted,
    ensures
        range.contains_spec(&c) <==> range@.start.number() <= c.number() <= range@.end.number(),
{
    K::lemma_order(range@.start, c);
    K::lemma_order(c, range@.end);
}

} // verus!
