//! Saving a sequence of inputs one by one.

use vstd::prelude::*;

verus! {

/// The counts in `outs` summed, errors counting nothing.
pub open spec fn total<E>(outs: Seq<Result<u64, E>>) -> nat
    decreases outs.len(),
{
    if outs.len() == 0 {
        0
    } else {
        total(outs.drop_last()) + match outs.last() {
            Ok(c) => c as nat,
            Err(_) => 0,
        }
    }
}

/// What a run of saves comes to: its first error, or the sum of its counts.
pub open spec fn saved<E>(outs: Seq<Result<u64, E>>) -> Result<nat, E>
    decreases outs.len(),
{
    if outs.len() == 0 {
        Ok(0)
    } else {
        match saved(outs.drop_last()) {
            Err(e) => Err(e),
            Ok(n) => match outs.last() {
                Ok(c) => Ok(n + c as nat),
                Err(e) => Err(e),
            },
        }
    }
}

/// `outs` are results that `saver` can return for the first inputs, one
/// each and in order.
pub open spec fn outcomes<T, O, E>(saver: O, inputs: Seq<T>, outs: Seq<Result<u64, E>>) -> bool where
    O: Fn(T) -> Result<u64, E>,
 {
    outs.len() <= inputs.len() && forall|i: int|
        0 <= i < outs.len() ==> call_ensures(saver, (inputs[i],), #[trigger] outs[i])
}

/// `outs` is a run of saves over `inputs`: one result for each input in
/// order, up to the first error and no further.
pub open spec fn run<T, O, E>(saver: O, inputs: Seq<T>, outs: Seq<Result<u64, E>>) -> bool where
    O: Fn(T) -> Result<u64, E>,
 {
    &&& outcomes(saver, inputs, outs)
    &&& forall|i: int| 0 <= i < outs.len() - 1 ==> (#[trigger] outs[i]) is Ok
    &&& outs.len() == inputs.len() || (outs.len() > 0 && outs.last() is Err)
}

/// A saved count, or the error in its place, as a number without bound.
pub open spec fn count_view<E>(r: Result<u64, E>) -> Result<nat, E> {
    match r {
        Ok(n) => Ok(n as nat),
        Err(e) => Err(e),
    }
}

/// A run without an error comes to the sum of its counts.
pub proof fn lemma_saved_total<E>(outs: Seq<Result<u64, E>>)
    requires
        forall|i: int| 0 <= i < outs.len() ==> outs[i] is Ok,
    ensures
        saved(outs) == Ok::<nat, E>(total(outs)),
    decreases outs.len(),
{
    if outs.len() > 0 {
        let front = outs.drop_last();
        assert forall|i: int| 0 <= i < front.len() implies front[i] is Ok by {
            assert(front[i] == outs[i]);
        }
        lemma_saved_total(front);
    }
}

/// Counts that each stay within `bound` sum to no more than their number
/// times `bound`.
pub proof fn lemma_total_bounded<E>(outs: Seq<Result<u64, E>>, bound: nat)
    requires
        forall|i: int|
            0 <= i < outs.len() && (#[trigger] outs[i]) is Ok ==> outs[i]->Ok_0 <= bound,
    ensures
        total(outs) <= outs.len() * bound,
    decreases outs.len(),
{
    if outs.len() > 0 {
        let front = outs.drop_last();
        assert forall|i: int| 0 <= i < front.len() && (#[trigger] front[i]) is Ok implies front[i]->Ok_0
            <= bound by {
            assert(front[i] == outs[i]);
        }
        lemma_total_bounded(front, bound);
        assert(outs.len() * bound == front.len() * bound + bound) by (nonlinear_arith)
            requires
                outs.len() == front.len() + 1,
        ;
        assert(outs[outs.len() - 1] is Ok ==> outs[outs.len() - 1]->Ok_0 <= bound);
    } else {
        assert(outs.len() * bound == 0) by (nonlinear_arith)
            requires
                outs.len() == 0,
        ;
    }
}

/// Saves the inputs one by one and sums the counts that the saver returns.
/// The first failed save ends the run and is returned; the inputs after it
/// are not saved.
///
/// The sum must fit: whatever the saver returns for these inputs, the counts
/// together stay within `u64`.
pub fn save_many<T, O, E>(inputs: Vec<T>, saver: O) -> (r: Result<u64, E>) where
    O: Fn(T) -> Result<u64, E>,

    requires
        forall|i: int| 0 <= i < inputs@.len() ==> call_requires(saver, (#[trigger] inputs@[i],)),
        forall|outs: Seq<Result<u64, E>>| #[trigger]
            outcomes(saver, inputs@, outs) ==> total(outs) <= u64::MAX,
    ensures
        exists|outs: Seq<Result<u64, E>>| #[trigger]
            run(saver, inputs@, outs) && count_view(r) == saved(outs),
{
    let mut cnt: u64 = 0;
    let ghost all = inputs@;
    let ghost mut outs: Seq<Result<u64, E>> = Seq::empty();
    for input in it: inputs.into_iter()
        invariant
            it.seq() == all,
            forall|i: int| 0 <= i < all.len() ==> call_requires(saver, (#[trigger] all[i],)),
            forall|outs: Seq<Result<u64, E>>| #[trigger]
                outcomes(saver, all, outs) ==> total(outs) <= u64::MAX,
            outs.len() == it.index(),
            outcomes(saver, all, outs),
            forall|i: int| 0 <= i < outs.len() ==> (#[trigger] outs[i]) is Ok,
            cnt == total(outs),
    {
        let ghost before = outs;
        let res = saver(input);
        proof {
            outs = before.push(res);
            assert(outs.drop_last() == before);
            assert(outcomes(saver, all, outs));
        }
        match res {
            Ok(c) => {
                cnt = c + cnt;
            },
            Err(e) => {
                proof {
                    lemma_saved_total(before);
                    assert(run(saver, all, outs));
                }
                return Err(e);
            },
        }
    }
    proof {
        lemma_saved_total(outs);
        assert(run(saver, all, outs));
    }
    Ok(cnt)
}

} // verus!
