//! Saving a sequence of inputs that may hold errors, and committing what
//! was saved.

use vstd::prelude::*;

use crate::output::sync::{count_view, lemma_saved_total, saved, total};

verus! {

/// `out` is what saving makes of one input: an error passes through and
/// nothing is saved; any other input becomes a result that the saving can
/// return for it. `saving` holds of an input and a result that the saving
/// can return for it.
pub open spec fn tried<T, E>(
    saving: spec_fn(T, Result<u64, E>) -> bool,
    input: Result<T, E>,
    out: Result<u64, E>,
) -> bool {
    match input {
        Err(e) => out == Err::<u64, E>(e),
        Ok(x) => saving(x, out),
    }
}

/// `outs` are results that the saving can come to for the first inputs, one
/// each and in order.
pub open spec fn attempts<T, E>(
    saving: spec_fn(T, Result<u64, E>) -> bool,
    inputs: Seq<Result<T, E>>,
    outs: Seq<Result<u64, E>>,
) -> bool {
    outs.len() <= inputs.len() && forall|i: int|
        0 <= i < outs.len() ==> tried(saving, inputs[i], #[trigger] outs[i])
}

/// `outs` is a run of saves over `inputs`: one result for each input in
/// order, up to the first error and no further.
pub open spec fn tried_run<T, E>(
    saving: spec_fn(T, Result<u64, E>) -> bool,
    inputs: Seq<Result<T, E>>,
    outs: Seq<Result<u64, E>>,
) -> bool {
    &&& attempts(saving, inputs, outs)
    &&& forall|i: int| 0 <= i < outs.len() - 1 ==> (#[trigger] outs[i]) is Ok
    &&& outs.len() == inputs.len() || (outs.len() > 0 && outs.last() is Err)
}

/// Saves the inputs one by one and sums the counts that the saver returns.
/// The first error, among the inputs or from the saver, ends the run and is
/// returned; nothing after it is saved.
///
/// The sum must fit: whatever the saver returns for these inputs, the counts
/// together stay within `u64`.
pub fn save_many<T, O, E>(inputs: Vec<Result<T, E>>, saver: &O) -> (r: Result<u64, E>) where
    O: Fn(T) -> Result<u64, E>,

    requires
        forall|x: T| call_requires(*saver, (x,)),
        forall|outs: Seq<Result<u64, E>>|
            #![trigger total(outs)]
            attempts(|x: T, out: Result<u64, E>| call_ensures(*saver, (x,), out), inputs@, outs)
                ==> total(outs) <= u64::MAX,
    ensures
        exists|outs: Seq<Result<u64, E>>|
            #![trigger saved(outs)]
            tried_run(|x: T, out: Result<u64, E>| call_ensures(*saver, (x,), out), inputs@, outs)
                && count_view(r) == saved(outs),
{
    let ghost saving = |x: T, out: Result<u64, E>| call_ensures(*saver, (x,), out);
    let mut cnt: u64 = 0;
    let ghost all = inputs@;
    let ghost mut outs: Seq<Result<u64, E>> = Seq::empty();
    for input in it: inputs.into_iter()
        invariant
            it.seq() == all,
            saving == |x: T, out: Result<u64, E>| call_ensures(*saver, (x,), out),
            forall|x: T| call_requires(*saver, (x,)),
            forall|outs: Seq<Result<u64, E>>|
                #![trigger total(outs)]
                attempts(saving, all, outs) ==> total(outs) <= u64::MAX,
            outs.len() == it.index(),
            attempts(saving, all, outs),
            forall|i: int| 0 <= i < outs.len() ==> (#[trigger] outs[i]) is Ok,
            cnt == total(outs),
    {
        let ghost before = outs;
        let res = match input {
            Err(e) => Err(e),
            Ok(x) => saver(x),
        };
        proof {
            outs = before.push(res);
            assert(outs.drop_last() == before);
            assert(tried(saving, all[it.index()], res));
            assert(attempts(saving, all, outs));
            assert(total(outs) <= u64::MAX);
        }
        match res {
            Ok(c) => {
                cnt = c + cnt;
            },
            Err(e) => {
                proof {
                    lemma_saved_total(before);
                    assert(tried_run(saving, all, outs));
                    assert(saved(outs) == Err::<nat, E>(e));
                }
                return Err(e);
            },
        }
    }
    proof {
        lemma_saved_total(outs);
        assert(tried_run(saving, all, outs));
    }
    Ok(cnt)
}

/// `r` is what a transaction comes to after a run of saves: the error of the
/// run, with nothing committed; or else the error of the commit, or the sum
/// of the counts. `committing` holds of a result that the commit can
/// return.
pub open spec fn committed<E>(
    outs: Seq<Result<u64, E>>,
    committing: spec_fn(Result<(), E>) -> bool,
    r: Result<u64, E>,
) -> bool {
    match saved(outs) {
        Err(e) => r == Err::<u64, E>(e),
        Ok(n) => exists|c: Result<(), E>|
            #![trigger committing(c)]
            committing(c) && count_view(r) == match c {
                Ok(_) => Ok::<nat, E>(n),
                Err(e) => Err::<nat, E>(e),
            },
    }
}

/// A transaction: inputs are saved into it one by one, and what was saved
/// counts once it is committed.
pub trait Transaction: Sized {
    type Input;

    type Error;

    fn commit(self) -> Result<(), Self::Error>;

    fn save(&self, i: Self::Input) -> Result<u64, Self::Error>;

    /// Saves the inputs one by one, then commits, and returns the sum of
    /// the counts. The first error, among the inputs or from a save, ends
    /// the run and is returned, and nothing is committed.
    ///
    /// The sum must fit: whatever the saves return for these inputs, the
    /// counts together stay within `u64`.
    fn save_many(self, inputs: Vec<Result<Self::Input, Self::Error>>) -> (r: Result<
        u64,
        Self::Error,
    >)
        requires
            forall|outs: Seq<Result<u64, Self::Error>>|
                #![trigger total(outs)]
                attempts(
                    |x: Self::Input, out: Result<u64, Self::Error>|
                        call_ensures(Self::save, (&self, x), out),
                    inputs@,
                    outs,
                ) ==> total(outs) <= u64::MAX,
        default_ensures
            exists|outs: Seq<Result<u64, Self::Error>>|
                #![trigger saved(outs)]
                tried_run(
                    |x: Self::Input, out: Result<u64, Self::Error>|
                        call_ensures(Self::save, (&self, x), out),
                    inputs@,
                    outs,
                ) && committed(
                    outs,
                    |c: Result<(), Self::Error>| call_ensures(Self::commit, (self,), c),
                    r,
                ),
    {
        let ghost saving = |x: Self::Input, out: Result<u64, Self::Error>|
            call_ensures(Self::save, (&self, x), out);
        let ghost committing = |c: Result<(), Self::Error>| call_ensures(Self::commit, (self,), c);
        let mut cnt: u64 = 0;
        let ghost all = inputs@;
        let ghost mut outs: Seq<Result<u64, Self::Error>> = Seq::empty();
        for input in it: inputs.into_iter()
            invariant
                it.seq() == all,
                saving == |x: Self::Input, out: Result<u64, Self::Error>|
                    call_ensures(Self::save, (&self, x), out),
                committing == |c: Result<(), Self::Error>| call_ensures(Self::commit, (self,), c),
                forall|outs: Seq<Result<u64, Self::Error>>|
                    #![trigger total(outs)]
                    attempts(saving, all, outs) ==> total(outs) <= u64::MAX,
                outs.len() == it.index(),
                attempts(saving, all, outs),
                forall|i: int| 0 <= i < outs.len() ==> (#[trigger] outs[i]) is Ok,
                cnt == total(outs),
        {
            let ghost before = outs;
            let res = match input {
                Err(e) => Err(e),
                Ok(x) => self.save(x),
            };
            proof {
                outs = before.push(res);
                assert(outs.drop_last() == before);
                assert(tried(saving, all[it.index()], res));
                assert(attempts(saving, all, outs));
                assert(total(outs) <= u64::MAX);
            }
            match res {
                Ok(c) => {
                    cnt = cnt + c;
                },
                Err(e) => {
                    proof {
                        lemma_saved_total(before);
                        assert(tried_run(saving, all, outs));
                        assert(committed(outs, committing, Err::<u64, Self::Error>(e)));
                    }
                    return Err(e);
                },
            }
        }
        proof {
            lemma_saved_total(outs);
            assert(tried_run(saving, all, outs));
        }
        let c = self.commit();
        let r = match c {
            Ok(_) => Ok(cnt),
            Err(e) => Err(e),
        };
        proof {
            assert(committing(c));
            assert(committed(outs, committing, r));
        }
        r
    }
}

} // verus!
