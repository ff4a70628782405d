//! Pasting: several sequences walked in lock step, one merged item for each
//! row of items, until the shortest sequence ends.

use std::vec::IntoIter;
use tonic::Status;
use vstd::prelude::*;
use vstd::std_specs::iter::IteratorSpec;

use crate::input::join::mem::btree::next_entry;
use crate::input::source::BucketSource;

verus! {

/// The least of the lengths of `streams`; 0 where there is no stream.
pub open spec fn shortest<T>(streams: Seq<Seq<T>>) -> nat
    decreases streams.len(),
{
    if streams.len() == 0 {
        0
    } else if streams.len() == 1 {
        streams[0].len()
    } else {
        let rest = shortest(streams.drop_last());
        if streams.last().len() < rest {
            streams.last().len()
        } else {
            rest
        }
    }
}

/// Row `j` of `streams`: item `j` of each stream, in the order of the streams.
pub open spec fn row_at<T>(streams: Seq<Seq<T>>, j: int) -> Seq<T> {
    Seq::new(streams.len(), |i: int| streams[i][j])
}

/// The streams as sequences.
pub open spec fn views<T>(streams: Seq<Vec<T>>) -> Seq<Seq<T>> {
    streams.map_values(|s: Vec<T>| s@)
}

/// `out` is `streams` pasted: as many items as the shortest stream has, item
/// `j` being what `merger` returned for row `j`.
pub open spec fn pasted<T, M, U>(streams: Seq<Seq<T>>, merger: M, out: Seq<U>) -> bool where
    M: Fn(&[T]) -> U,
 {
    out.len() == shortest(streams) && forall|j: int|
        0 <= j < out.len() ==> row_merged(streams, merger, j, #[trigger] out[j])
}

/// `item` is what `merger` returned for row `j`.
pub open spec fn row_merged<T, M, U>(streams: Seq<Seq<T>>, merger: M, j: int, item: U) -> bool where
    M: Fn(&[T]) -> U,
 {
    exists|row: &[T]|
        #![trigger call_ensures(merger, (row,), item)]
        row@ == row_at(streams, j) && call_ensures(merger, (row,), item)
}

/// `merger` can be called on every row of `streams`.
pub open spec fn merges_rows<T, M, U>(streams: Seq<Seq<T>>, merger: M) -> bool where
    M: Fn(&[T]) -> U,
 {
    forall|j: int, row: &[T]|
        #![trigger row_at(streams, j), call_requires(merger, (row,))]
        0 <= j < shortest(streams) && row@ == row_at(streams, j) ==> call_requires(merger, (row,))
}

/// The shortest length is the length of one of the streams, and no stream is
/// shorter.
pub proof fn lemma_shortest<T>(streams: Seq<Seq<T>>)
    requires
        streams.len() > 0,
    ensures
        forall|i: int| 0 <= i < streams.len() ==> shortest(streams) <= (#[trigger] streams[i]).len(),
        exists|i: int| 0 <= i < streams.len() && shortest(streams) == (#[trigger] streams[i]).len(),
    decreases streams.len(),
{
    if streams.len() > 1 {
        let front = streams.drop_last();
        lemma_shortest(front);
        assert forall|i: int| 0 <= i < streams.len() implies shortest(streams) <= (
        #[trigger] streams[i]).len() by {
            if i < front.len() {
                assert(front[i] == streams[i]);
            }
        }
        if streams.last().len() < shortest(front) {
            assert(shortest(streams) == streams[streams.len() - 1].len());
        } else {
            let i = choose|i: int|
                0 <= i < front.len() && shortest(front) == (#[trigger] front[i]).len();
            assert(front[i] == streams[i]);
        }
    } else {
        assert(shortest(streams) == streams[0].len());
    }
}

/// What the zipper asks for next.
pub enum PasteAction<T> {
    /// Pull one item from the stream of this index.
    Pull(usize),
    /// A row is complete: merge it and hand the merged item on.
    Send(Vec<T>),
    /// The pasted sequence has ended.
    Stop,
}

/// The zipper's state: how many streams there are, and the items of the row
/// under way.
pub struct Paster<T> {
    width: usize,
    buf: Vec<T>,
}

impl<T> Paster<T> {
    /// The number of streams.
    pub closed spec fn width(&self) -> nat {
        self.width as nat
    }

    /// The items pulled for the row under way.
    pub closed spec fn held(&self) -> Seq<T> {
        self.buf@
    }

    /// A zipper over `width` streams, with no item pulled yet.
    pub fn new(width: usize) -> (p: Self)
        ensures
            p.width() == width,
            p.held() == Seq::<T>::empty(),
    {
        Paster { width, buf: Vec::new() }
    }

    /// What to do first, and after a row was handed on: pull from the first
    /// stream. A zipper over no streams has its row complete at once, and
    /// so every time.
    pub fn start(&self) -> (a: PasteAction<T>)
        requires
            self.held().len() == 0,
        ensures
            self.width() > 0 ==> a == PasteAction::<T>::Pull(0),
            self.width() == 0 ==> (a matches PasteAction::Send(row) && row@.len() == 0),
    {
        if self.width == 0 {
            PasteAction::Send(Vec::new())
        } else {
            PasteAction::Pull(0)
        }
    }

    /// The pull that was asked for has returned, so the row under way is not
    /// yet complete. An exhausted stream ends the
    /// whole: nothing more is pulled from any stream. An item joins the row;
    /// the complete row is to be sent, an incomplete one asks for the next
    /// stream.
    pub fn pulled(&mut self, item: Option<T>) -> (a: PasteAction<T>)
        requires
            old(self).held().len() < old(self).width(),
        ensures
            final(self).width() == old(self).width(),
            match item {
                None => a == PasteAction::<T>::Stop && final(self).held() == old(self).held(),
                Some(x) => if old(self).held().len() + 1 == old(self).width() {
                    a matches PasteAction::Send(row) && row@ == old(self).held().push(x) && final(self).held().len() == 0
                } else {
                    a == PasteAction::<T>::Pull((old(self).held().len() + 1) as usize) && final(self).held() == old(self).held().push(x)
                },
            },
    {
        match item {
            None => PasteAction::Stop,
            Some(x) => {
                if self.buf.len() + 1 == self.width {
                    let mut row: Vec<T> = Vec::new();
                    core::mem::swap(&mut row, &mut self.buf);
                    row.push(x);
                    PasteAction::Send(row)
                } else {
                    self.buf.push(x);
                    PasteAction::Pull(self.buf.len())
                }
            },
        }
    }

    /// The row was handed on, or could not be because nobody takes it any
    /// more: then the zipper stops at once.
    pub fn sent(&self, accepted: bool) -> (a: PasteAction<T>)
        requires
            self.held().len() == 0,
        ensures
            !accepted ==> a == PasteAction::<T>::Stop,
            accepted && self.width() > 0 ==> a == PasteAction::<T>::Pull(0),
            accepted && self.width() == 0 ==> (a matches PasteAction::Send(row) && row@.len() == 0),
    {
        if accepted {
            self.start()
        } else {
            PasteAction::Stop
        }
    }
}

/// How far the zipper is from its end within a row: a pull from stream `i`
/// has the streams from `i` on before it, a complete row only the sending,
/// and a stop nothing.
pub open spec fn phase<T>(action: PasteAction<T>, width: nat) -> nat {
    match action {
        PasteAction::Pull(i) => (width - i + 1) as nat,
        PasteAction::Send(_) => 1,
        PasteAction::Stop => 0,
    }
}

/// How many items a paste that has given `j` rows and is about to do
/// `action` has pulled from stream `k`.
pub open spec fn pulled_from<T>(k: int, j: int, action: PasteAction<T>) -> int {
    match action {
        PasteAction::Pull(i) => if k < i {
            j + 1
        } else {
            j
        },
        PasteAction::Send(_) => j + 1,
        PasteAction::Stop => j,
    }
}

/// The state of a paste of `all` that has given `j` rows and is about to do
/// `action`: what the row under way holds, and that no stream was asked for
/// more than it has.
pub open spec fn pasting<T>(all: Seq<Seq<T>>, held: Seq<T>, j: int, action: PasteAction<T>) -> bool {
    match action {
        PasteAction::Pull(i) => {
            &&& i < all.len()
            &&& held == row_at(all, j).take(i as int)
            &&& forall|k: int|
                0 <= k < all.len() ==> pulled_from(k, j, action) <= (#[trigger] all[k]).len()
        },
        PasteAction::Send(row) => {
            &&& row@ == row_at(all, j)
            &&& held.len() == 0
            &&& forall|k: int| 0 <= k < all.len() ==> j < (#[trigger] all[k]).len()
        },
        PasteAction::Stop => j == shortest(all),
    }
}

/// Pastes the streams: pulls one item from each stream in the order of the
/// streams, one at a time, hands the row to `merger`, and goes on so until
/// one of the streams has no item left. Then the whole ends, whatever the
/// other streams still hold.
///
/// There is at least one stream: pasted over none, the rows would never end.
pub fn streams2stream<T, M, U>(streams: Vec<Vec<T>>, merger: M) -> (out: Vec<U>) where
    M: Fn(&[T]) -> U,

    requires
        streams@.len() > 0,
        merges_rows(views(streams@), merger),
    ensures
        pasted(views(streams@), merger, out@),
{
    let ghost all = views(streams@);
    let n = streams.len();
    let bound = streams[0].len();
    let mut walks: Vec<IntoIter<T>> = Vec::new();
    for s in it: streams.into_iter()
        invariant
            views(it.seq()) == all,
            walks@.len() == it.index(),
            forall|k: int|
                0 <= k < walks@.len() ==> (#[trigger] walks@[k]).obeys_prophetic_iter_laws()
                    && walks@[k].remaining() == all[k],
    {
        walks.push(s.into_iter());
    }
    let mut paster: Paster<T> = Paster::new(n);
    let mut out: Vec<U> = Vec::new();
    let mut action = paster.start();
    proof {
        assert(row_at(all, 0).take(0) == Seq::<T>::empty());
        assert forall|k: int| 0 <= k < all.len() implies (#[trigger] walks@[k]).remaining()
            == all[k].skip(0) by {
            assert(all[k].skip(0) == all[k]);
        }
        lemma_shortest(all);
    }
    loop
        invariant
            n == all.len(),
            n > 0,
            paster.width() == n,
            walks@.len() == n,
            bound == all[0].len(),
            merges_rows(all, merger),
            out@.len() <= shortest(all),
            forall|j: int| 0 <= j < out@.len() ==> row_merged(all, merger, j, #[trigger] out@[j]),
            paster.held().len() < n,
            pasting(all, paster.held(), out@.len() as int, action),
            action !is Stop ==> forall|k: int|
                0 <= k < n ==> (#[trigger] walks@[k]).obeys_prophetic_iter_laws()
                    && walks@[k].remaining() == all[k].skip(
                    pulled_from(k, out@.len() as int, action),
                ),
        ensures
            pasted(all, merger, out@),
        decreases bound - out@.len(), phase(action, n as nat),
    {
        let ghost j = out@.len() as int;
        match action {
            PasteAction::Stop => {
                break ;
            },
            PasteAction::Pull(i) => {
                let ghost before = walks@;
                let ghost held = paster.held();
                let item = next_entry(&mut walks[i]);
                let ghost pulled = item;
                action = paster.pulled(item);
                proof {
                    lemma_shortest(all);
                    assert(before[i as int].remaining() == all[i as int].skip(j));
                    match pulled {
                        None => {
                            assert(all[i as int].skip(j).len() == 0);
                        },
                        Some(x) => {
                            assert(all[i as int].skip(j)[0] == all[i as int][j]);
                            assert(all[i as int].skip(j).drop_first() == all[i as int].skip(j + 1));
                            assert(held.push(x) == row_at(all, j).take(i + 1));
                            assert(row_at(all, j).take(n as int) == row_at(all, j));
                            assert forall|k: int| 0 <= k < all.len() implies (
                            #[trigger] walks@[k]).obeys_prophetic_iter_laws() by {
                                if k != i {
                                    assert(walks@[k] == before[k]);
                                }
                            }
                            assert forall|k: int| 0 <= k < all.len() && k != i implies (
                            #[trigger] walks@[k]).remaining() == before[k].remaining() by {
                                assert(walks@[k] == before[k]);
                            }
                            assert forall|k: int| 0 <= k < n implies (
                            #[trigger] walks@[k]).remaining() == all[k].skip(
                                pulled_from(k, j, action),
                            ) by {
                                if k != i {
                                    assert(walks@[k] == before[k]);
                                    assert(pulled_from(k, j, action) == pulled_from(
                                        k,
                                        j,
                                        PasteAction::<T>::Pull(i),
                                    ));
                                }
                            }
                        },
                    }
                }
            },
            PasteAction::Send(row) => {
                let ghost sending = action;
                let slice = row.as_slice();
                proof {
                    lemma_shortest(all);
                    let least = choose|i: int|
                        0 <= i < all.len() && shortest(all) == (#[trigger] all[i]).len();
                    assert(j < all[least].len());
                    assert(slice@ == row_at(all, j));
                    assert(call_requires(merger, (slice,)));
                }
                let item = merger(slice);
                proof {
                    assert(row_merged(all, merger, j, item));
                }
                out.push(item);
                action = paster.sent(true);
                proof {
                    assert(row_at(all, j + 1).take(0) == Seq::<T>::empty());
                    assert(paster.held() == Seq::<T>::empty());
                    assert forall|k: int| 0 <= k < n implies pulled_from(k, j + 1, action)
                        == pulled_from(k, j, sending) by {}
                }
            },
        }
    }
    out
}

/// Streams to be pasted.
pub struct PasteStream<T> {
    streams: Vec<Vec<T>>,
}

impl<T> PasteStream<T> {
    /// The streams, in the order in which they are pulled.
    pub closed spec fn streams(&self) -> Seq<Vec<T>> {
        self.streams@
    }

    /// Holds the streams for pasting.
    pub fn new(streams: Vec<Vec<T>>) -> (p: Self)
        ensures
            p.streams() == streams@,
    {
        PasteStream { streams }
    }

    /// Pastes the streams as `streams2stream` does.
    pub fn into_pasted<M, U>(self, merger: M) -> (out: Vec<U>) where M: Fn(&[T]) -> U
        requires
            self.streams().len() > 0,
            merges_rows(views(self.streams()), merger),
        ensures
            pasted(views(self.streams()), merger, out@),
    {
        streams2stream(self.streams, merger)
    }
}

/// `gets` are the answers of `bs` for `buckets`, one each and in order, up
/// to the first failure and no further.
pub open spec fn opened<B: BucketSource>(
    bs: &B,
    buckets: Seq<B::Bucket>,
    gets: Seq<Result<Vec<Result<(B::K, B::V), Status>>, Status>>,
) -> bool {
    &&& gets.len() <= buckets.len()
    &&& forall|i: int|
        0 <= i < gets.len() ==> call_ensures(
            B::get_all_by_bucket,
            (bs, buckets[i]),
            #[trigger] gets[i],
        )
    &&& forall|i: int| 0 <= i < gets.len() - 1 ==> (#[trigger] gets[i]) is Ok
    &&& gets.len() == buckets.len() || (gets.len() > 0 && gets.last() is Err)
}

/// The rows of answers that are all there.
pub open spec fn streams_of<K, V>(gets: Seq<Result<Vec<Result<(K, V), Status>>, Status>>) -> Seq<
    Seq<Result<(K, V), Status>>,
> {
    gets.map_values(|g: Result<Vec<Result<(K, V), Status>>, Status>| g->Ok_0@)
}

/// `r` is the paste of the buckets: nothing where no bucket was named or one
/// of them could not be had, else the rows of all of them pasted.
pub open spec fn pasted_buckets<B: BucketSource, M, U>(
    bs: &B,
    buckets: Seq<B::Bucket>,
    merger: M,
    r: Option<Vec<U>>,
) -> bool where M: Fn(&[Result<(B::K, B::V), Status>]) -> U {
    exists|gets: Seq<Result<Vec<Result<(B::K, B::V), Status>>, Status>>|
        #![trigger opened(bs, buckets, gets)]
        opened(bs, buckets, gets) && match r {
            None => gets.len() == 0 || gets.last() is Err,
            Some(out) => gets.len() > 0 && gets.last() is Ok && pasted(
                streams_of(gets),
                merger,
                out@,
            ),
        }
}

/// Asks `bs` for each bucket in turn and pastes their rows. The first bucket
/// that cannot be had ends the asking, and then nothing is pasted; nor is
/// anything where no bucket is named.
pub fn buckets2stream<B, M, U>(buckets: Vec<B::Bucket>, merger: M, bs: &B) -> (r: Option<
    Vec<U>,
>) where B: BucketSource, M: Fn(&[Result<(B::K, B::V), Status>]) -> U
    requires
        forall|row: &[Result<(B::K, B::V), Status>]| call_requires(merger, (row,)),
    ensures
        pasted_buckets(bs, buckets@, merger, r),
{
    let mut streams: Vec<Vec<Result<(B::K, B::V), Status>>> = Vec::new();
    let ghost all = buckets@;
    let ghost mut gets: Seq<Result<Vec<Result<(B::K, B::V), Status>>, Status>> = Seq::empty();
    for bkt in it: buckets.into_iter()
        invariant
            it.seq() == all,
            gets.len() == it.index(),
            forall|i: int|
                0 <= i < gets.len() ==> call_ensures(
                    B::get_all_by_bucket,
                    (bs, all[i]),
                    #[trigger] gets[i],
                ),
            forall|i: int| 0 <= i < gets.len() ==> (#[trigger] gets[i]) is Ok,
            streams@.len() == it.index(),
            streams_of(gets) == views(streams@),
    {
        let ghost before = gets;
        let answer = bs.get_all_by_bucket(bkt);
        proof {
            gets = before.push(answer);
        }
        match answer {
            Err(_) => {
                proof {
                    assert(opened(bs, all, gets));
                }
                return None;
            },
            Ok(rows) => {
                let ghost held = streams@;
                streams.push(rows);
                proof {
                    assert forall|k: int| 0 <= k < gets.len() implies streams_of(gets)[k] == views(
                        streams@,
                    )[k] by {
                        if k < before.len() {
                            assert(streams_of(before)[k] == views(held)[k]);
                        }
                    }
                    assert(streams_of(gets) =~= views(streams@));
                }
            },
        }
    }
    proof {
        assert(opened(bs, all, gets));
    }
    if streams.len() == 0 {
        None
    } else {
        Some(streams2stream(streams, merger))
    }
}

} // verus!
