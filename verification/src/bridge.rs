//! The bridge: a hand-off of items from a producer that runs on its own to a
//! consumer that takes them at its own pace, through a buffer of one item.

use vstd::prelude::*;

verus! {

/// What became of an item offered to the bridge.
pub enum Offer<T> {
    /// The bridge holds the item for the consumer.
    Accepted,
    /// The buffer is taken: the producer waits, keeps the item, and offers it
    /// again once the consumer has taken the one before.
    Full(T),
    /// The consumer is gone: the producer stops at once.
    Closed(T),
}

/// What the consumer gets when it asks for the next item.
pub enum Poll<T> {
    /// The next item.
    Item(T),
    /// Nothing yet: the producer is still at work.
    Pending,
    /// Nothing any more: the producer has ended and every item was taken.
    Done,
}

/// The state of a bridge.
pub struct Bridge<T> {
    slot: Option<T>,
    finished: bool,
    abandoned: bool,
    accepted: Ghost<Seq<T>>,
    delivered: Ghost<Seq<T>>,
}

impl<T> Bridge<T> {
    /// Every item accepted so far, in the order of the offers.
    pub closed spec fn accepted(&self) -> Seq<T> {
        self.accepted@
    }

    /// Every item handed to the consumer so far, in the order of the polls.
    pub closed spec fn delivered(&self) -> Seq<T> {
        self.delivered@
    }

    /// The producer has ended.
    pub closed spec fn finished(&self) -> bool {
        self.finished
    }

    /// The consumer is gone.
    pub closed spec fn abandoned(&self) -> bool {
        self.abandoned
    }

    /// The buffer holds an item that the consumer has not taken.
    pub closed spec fn buffered(&self) -> bool {
        self.slot is Some
    }

    /// What holds of every bridge: the items delivered are the first of the
    /// items accepted, and while the consumer is there, all of them but the
    /// one in the buffer.
    pub closed spec fn wf(&self) -> bool {
        &&& self.delivered@.len() <= self.accepted@.len()
        &&& self.delivered@ =~= self.accepted@.take(self.delivered@.len() as int)
        &&& match self.slot {
            Some(x) => !self.abandoned && self.accepted@ =~= self.delivered@.push(x),
            None => self.abandoned || self.accepted@ =~= self.delivered@,
        }
    }

    /// A bridge with nothing offered and nothing taken.
    pub fn new() -> (b: Self)
        ensures
            b.wf(),
            b.accepted() == Seq::<T>::empty(),
            b.delivered() == Seq::<T>::empty(),
            !b.finished(),
            !b.abandoned(),
            !b.buffered(),
    {
        Bridge {
            slot: None,
            finished: false,
            abandoned: false,
            accepted: Ghost(Seq::empty()),
            delivered: Ghost(Seq::empty()),
        }
    }

    /// The producer offers its next item. The bridge takes it only into an
    /// empty buffer, so at most one item waits for the consumer; and it
    /// takes nothing once the consumer is gone, full or not, so a producer
    /// is never kept waiting for a consumer that will not come.
    pub fn offer(&mut self, item: T) -> (r: Offer<T>)
        requires
            old(self).wf(),
            !old(self).finished(),
        ensures
            final(self).wf(),
            final(self).finished() == old(self).finished(),
            final(self).abandoned() == old(self).abandoned(),
            final(self).delivered() == old(self).delivered(),
            old(self).abandoned() ==> r == Offer::Closed(item) && final(self).accepted() == old(self).accepted() && final(self).buffered() == old(self).buffered(),
            !old(self).abandoned() && old(self).buffered() ==> r == Offer::Full(item) && final(self).accepted() == old(self).accepted() && final(self).buffered(),
            !old(self).abandoned() && !old(self).buffered() ==> r == Offer::<T>::Accepted && final(self).accepted() == old(self).accepted().push(item) && final(self).buffered(),
    {
        if self.abandoned {
            Offer::Closed(item)
        } else if self.slot.is_some() {
            Offer::Full(item)
        } else {
            proof {
                self.accepted@ = self.accepted@.push(item);
            }
            self.slot = Some(item);
            proof {
                assert(self.accepted@.take(self.delivered@.len() as int) =~= self.delivered@);
            }
            Offer::Accepted
        }
    }

    /// The consumer asks for the next item. It gets the items in the order
    /// in which they were accepted, and is told that the sequence is done
    /// only when every accepted item was delivered.
    pub fn poll(&mut self) -> (r: Poll<T>)
        requires
            old(self).wf(),
            !old(self).abandoned(),
        ensures
            final(self).wf(),
            final(self).finished() == old(self).finished(),
            !final(self).abandoned(),
            final(self).accepted() == old(self).accepted(),
            !final(self).buffered(),
            old(self).buffered() ==> r == Poll::Item(
                old(self).accepted()[old(self).delivered().len() as int],
            ) && final(self).delivered() == old(self).accepted(),
            !old(self).buffered() ==> final(self).delivered() == old(self).delivered()
                && final(self).delivered() == final(self).accepted(),
            !old(self).buffered() && old(self).finished() ==> r == Poll::<T>::Done,
            !old(self).buffered() && !old(self).finished() ==> r == Poll::<T>::Pending,
    {
        let mut taken: Option<T> = None;
        core::mem::swap(&mut taken, &mut self.slot);
        match taken {
            Some(x) => {
                proof {
                    self.delivered@ = self.delivered@.push(x);
                    assert(self.accepted@.take(self.delivered@.len() as int) =~= self.accepted@);
                }
                Poll::Item(x)
            },
            None => {
                if self.finished {
                    Poll::Done
                } else {
                    Poll::Pending
                }
            },
        }
    }

    /// The producer has ended: nothing more will be offered.
    pub fn finish(&mut self)
        requires
            old(self).wf(),
        ensures
            final(self).wf(),
            final(self).finished(),
            final(self).abandoned() == old(self).abandoned(),
            final(self).accepted() == old(self).accepted(),
            final(self).delivered() == old(self).delivered(),
            final(self).buffered() == old(self).buffered(),
    {
        self.finished = true;
    }

    /// The consumer is gone. An item still in the buffer is dropped with it;
    /// from now on every offer is refused.
    pub fn abandon(&mut self)
        requires
            old(self).wf(),
        ensures
            final(self).wf(),
            final(self).abandoned(),
            final(self).finished() == old(self).finished(),
            final(self).accepted() == old(self).accepted(),
            final(self).delivered() == old(self).delivered(),
            !final(self).buffered(),
    {
        self.abandoned = true;
        self.slot = None;
    }

    /// The items come out in the order in which they went in: what was
    /// delivered is the beginning of what was accepted, and the two differ by
    /// the one item in the buffer at most while the consumer is there.
    pub proof fn lemma_in_order(&self)
        requires
            self.wf(),
        ensures
            self.delivered().is_prefix_of(self.accepted()),
            !self.abandoned() ==> self.accepted().len() == self.delivered().len() + if self
                .buffered() {
                1int
            } else {
                0int
            },
    {
    }
}

/// Feeds `items` through a bridge to a consumer that takes every item: the
/// producer offers each item in turn and, where the buffer is full, waits
/// until the consumer has taken the item before; in the end the consumer
/// takes what is left. What comes out is what went in, in the same order.
pub fn pump<T>(items: Vec<T>) -> (out: Vec<T>)
    ensures
        out@ == items@,
{
    let mut bridge: Bridge<T> = Bridge::new();
    let mut out: Vec<T> = Vec::new();
    let ghost all = items@;
    for item in it: items.into_iter()
        invariant
            it.seq() == all,
            bridge.wf(),
            !bridge.finished(),
            !bridge.abandoned(),
            bridge.accepted() == all.take(it.index()),
            bridge.delivered() == out@,
    {
        proof {
            bridge.lemma_in_order();
            assert(all.take(it.index()).push(item) == all.take(it.index() + 1));
        }
        match bridge.offer(item) {
            Offer::Accepted => {},
            Offer::Closed(_) => {},
            Offer::Full(waiting) => {
                match bridge.poll() {
                    Poll::Item(x) => {
                        out.push(x);
                    },
                    Poll::Pending => {},
                    Poll::Done => {},
                }
                match bridge.offer(waiting) {
                    Offer::Accepted => {},
                    Offer::Full(_) => {},
                    Offer::Closed(_) => {},
                }
            },
        }
    }
    bridge.finish();
    proof {
        assert(all.take(all.len() as int) == all);
        bridge.lemma_in_order();
    }
    match bridge.poll() {
        Poll::Item(x) => {
            out.push(x);
        },
        Poll::Pending => {},
        Poll::Done => {},
    }
    out
}

/// The lesser of two numbers.
pub open spec fn least(a: int, b: int) -> int {
    if a <= b {
        a
    } else {
        b
    }
}

/// Feeds `items` through a bridge to a consumer that takes `wanted` items
/// and then goes away. Returns what the consumer took, and how many items
/// the bridge accepted. The consumer gets the first `wanted` items, or all
/// if there are fewer; the producer stops at the first offer that is
/// refused, so at most one item is accepted beyond those that were taken.
pub fn pump_until<T>(items: Vec<T>, wanted: usize) -> (r: (Vec<T>, usize))
    ensures
        r.0@ == items@.take(least(wanted as int, items@.len() as int)),
        r.0@.len() <= r.1 <= r.0@.len() + 1,
        r.1 <= items@.len(),
{
    let mut bridge: Bridge<T> = Bridge::new();
    let mut out: Vec<T> = Vec::new();
    let mut accepted: usize = 0;
    let ghost all = items@;
    if wanted == 0 {
        bridge.abandon();
    }
    for item in it: items.into_iter()
        invariant
            it.seq() == all,
            bridge.wf(),
            !bridge.finished(),
            bridge.abandoned() == (out@.len() == wanted),
            out@.len() <= wanted,
            accepted == it.index(),
            out@.len() <= it.index() <= out@.len() + 1,
            bridge.accepted() == all.take(it.index()),
            bridge.delivered() == out@,
    {
        proof {
            bridge.lemma_in_order();
            assert(all.take(it.index()).push(item) == all.take(it.index() + 1));
            assert(all.take(it.index() as int).take(out@.len() as int) == all.take(
                out@.len() as int,
            ));
        }
        match bridge.offer(item) {
            Offer::Accepted => {
                accepted = accepted + 1;
            },
            Offer::Closed(_) => {
                return (out, accepted);
            },
            Offer::Full(waiting) => {
                match bridge.poll() {
                    Poll::Item(x) => {
                        out.push(x);
                    },
                    Poll::Pending => {},
                    Poll::Done => {},
                }
                if out.len() == wanted {
                    bridge.abandon();
                }
                match bridge.offer(waiting) {
                    Offer::Accepted => {
                        accepted = accepted + 1;
                    },
                    Offer::Full(_) => {},
                    Offer::Closed(_) => {
                        proof {
                            bridge.lemma_in_order();
                            assert(all.take(it.index() as int).take(out@.len() as int) == all.take(
                                out@.len() as int,
                            ));
                        }
                        return (out, accepted);
                    },
                }
            },
        }
    }
    bridge.finish();
    proof {
        assert(all.take(all.len() as int) == all);
        bridge.lemma_in_order();
    }
    if out.len() < wanted {
        match bridge.poll() {
            Poll::Item(x) => {
                out.push(x);
            },
            Poll::Pending => {},
            Poll::Done => {},
        }
    }
    (out, accepted)
}

} // verus!
