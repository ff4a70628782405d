//! The two workflows between a source and a target: migrate a bucket, and
//! drop from the source what the target proves to hold.

use tonic::Status;
use vstd::prelude::*;

use crate::rpc::source;
use crate::rpc::source::{CheckedRequest, CheckedResponse, InputBucket};
use crate::rpc::target;
use crate::rpc::target::{ManyRequest, ManyResponse, OutputBucket};

verus! {

/// The select service of the source.
pub trait SelectSource {
    fn all(&self, req: source::AllRequest) -> Result<
        Vec<Result<source::AllResponse, Status>>,
        Status,
    >;
}

/// The upsert service of the target.
pub trait UpsertTarget {
    fn many(&self, reqs: Vec<ManyRequest>) -> Result<ManyResponse, Status>;
}

/// The select service of the target.
pub trait SelectTarget {
    fn all(&self, req: target::AllRequest) -> Result<
        Vec<Result<target::AllResponse, Status>>,
        Status,
    >;
}

/// The checked-drop service of the source.
pub trait DropSource {
    fn checked(&self, reqs: Vec<CheckedRequest>) -> Result<CheckedResponse, Status>;
}

/// The rows of `rows` that are there, in order: the errors are left out.
pub open spec fn oks<T>(rows: Seq<Result<T, Status>>) -> Seq<T>
    decreases rows.len(),
{
    if rows.len() == 0 {
        Seq::empty()
    } else {
        match rows.last() {
            Ok(x) => oks(rows.drop_last()).push(x),
            Err(_) => oks(rows.drop_last()),
        }
    }
}

/// `reqs` are the upserts for `rows` into bucket `o`: one for each row that
/// is there, in order, with the key and the value of the row.
pub open spec fn upserts_of(
    rows: Seq<Result<source::AllResponse, Status>>,
    o: Seq<u8>,
    reqs: Seq<ManyRequest>,
) -> bool {
    reqs.len() == oks(rows).len() && forall|j: int|
        0 <= j < reqs.len() ==> {
            &&& (#[trigger] reqs[j]).bkt is Some
            &&& reqs[j].bkt->Some_0@ == o
            &&& reqs[j].key == oks(rows)[j].key
            &&& reqs[j].val == oks(rows)[j].val
        }
}

/// Makes the upserts of the selected rows. A row that could not be selected
/// is left out: it is neither sent nor counted.
pub fn upsert_requests(rows: Vec<Result<source::AllResponse, Status>>, o: &OutputBucket) -> (reqs:
    Vec<ManyRequest>)
    ensures
        upserts_of(rows@, o@, reqs@),
{
    let mut reqs: Vec<ManyRequest> = Vec::new();
    let ghost all = rows@;
    for row in it: rows.into_iter()
        invariant
            it.seq() == all,
            upserts_of(all.take(it.index()), o@, reqs@),
    {
        proof {
            assert(all.take(it.index() + 1).drop_last() == all.take(it.index()));
        }
        match row {
            Err(_) => {},
            Ok(a) => {
                reqs.push(ManyRequest { bkt: Some(o.clone()), key: a.key, val: a.val });
            },
        }
    }
    proof {
        assert(all.take(all.len() as int) == all);
    }
    reqs
}

/// `reqs` are the checked drops for `rows` from bucket `i`: one for each row
/// that is there, in order, with the key of the row and the check-token that
/// the target has for it.
pub open spec fn drops_of(
    rows: Seq<Result<target::AllResponse, Status>>,
    i: Seq<u8>,
    reqs: Seq<CheckedRequest>,
) -> bool {
    reqs.len() == oks(rows).len() && forall|j: int|
        0 <= j < reqs.len() ==> {
            &&& (#[trigger] reqs[j]).bkt is Some
            &&& reqs[j].bkt->Some_0@ == i
            &&& reqs[j].key == oks(rows)[j].key
            &&& reqs[j].check == oks(rows)[j].check
        }
}

/// Makes the checked drops of what the target tells it holds. A row that
/// could not be selected is left out: nothing is dropped for it.
pub fn drop_requests(rows: Vec<Result<target::AllResponse, Status>>, i: &InputBucket) -> (reqs: Vec<
    CheckedRequest,
>)
    ensures
        drops_of(rows@, i@, reqs@),
{
    let mut reqs: Vec<CheckedRequest> = Vec::new();
    let ghost all = rows@;
    for row in it: rows.into_iter()
        invariant
            it.seq() == all,
            drops_of(all.take(it.index()), i@, reqs@),
    {
        proof {
            assert(all.take(it.index() + 1).drop_last() == all.take(it.index()));
        }
        match row {
            Err(_) => {},
            Ok(a) => {
                reqs.push(CheckedRequest { bkt: Some(i.clone()), key: a.key, check: a.check });
            },
        }
    }
    proof {
        assert(all.take(all.len() as int) == all);
    }
    reqs
}

/// `r` is what a migration comes to: the failure of the selection, or of
/// the upsert, or the count that the target returned for the upserts of the
/// rows selected.
pub open spec fn migrated<U: UpsertTarget, S: SelectSource>(
    u: &U,
    s: &S,
    i: InputBucket,
    o: OutputBucket,
    r: Result<u64, Status>,
) -> bool {
    exists|selected: Result<Vec<Result<source::AllResponse, Status>>, Status>|
        #![trigger call_ensures(S::all, (s, source::AllRequest { bkt: Some(i) }), selected)]
        call_ensures(S::all, (s, source::AllRequest { bkt: Some(i) }), selected) && match selected {
            Err(e) => r == Err::<u64, Status>(e),
            Ok(rows) => exists|reqs: Vec<ManyRequest>, res: Result<ManyResponse, Status>|
                #![trigger call_ensures(U::many, (u, reqs), res)]
                upserts_of(rows@, o@, reqs@) && call_ensures(U::many, (u, reqs), res) && r == match res {
                    Ok(resp) => Ok::<u64, Status>(resp.upserted),
                    Err(e) => Err::<u64, Status>(e),
                },
        }
}

/// Gets all rows of a bucket of the source and upserts them into a bucket of
/// the target:
/// 1. gets all rows of the bucket,
/// 2. leaves out the rows that could not be had,
/// 3. upserts all the others,
/// 4. returns the number of rows that the target counts as upserted.
pub fn upsert_selected<U: UpsertTarget, S: SelectSource>(
    u: &U,
    s: &S,
    i: InputBucket,
    o: OutputBucket,
) -> (r: Result<u64, Status>)
    ensures
        migrated(u, s, i, o, r),
{
    let req = source::AllRequest { bkt: Some(i) };
    match s.all(req) {
        Err(e) => Err(e),
        Ok(rows) => {
            let reqs = upsert_requests(rows, &o);
            match u.many(reqs) {
                Ok(resp) => Ok(resp.upserted),
                Err(e) => Err(e),
            }
        },
    }
}

/// `r` is what a verified drop comes to: the failure of the selection, or
/// of the drop, or the count that the source returned for the checked drops
/// of what the target told.
pub open spec fn dropped<T: SelectTarget, D: DropSource>(
    t: &T,
    d: &D,
    i: InputBucket,
    o: OutputBucket,
    r: Result<u64, Status>,
) -> bool {
    exists|selected: Result<Vec<Result<target::AllResponse, Status>>, Status>|
        #![trigger call_ensures(T::all, (t, target::AllRequest { bkt: Some(o) }), selected)]
        call_ensures(T::all, (t, target::AllRequest { bkt: Some(o) }), selected) && match selected {
            Err(e) => r == Err::<u64, Status>(e),
            Ok(rows) => exists|reqs: Vec<CheckedRequest>, res: Result<CheckedResponse, Status>|
                #![trigger call_ensures(D::checked, (d, reqs), res)]
                drops_of(rows@, i@, reqs@) && call_ensures(D::checked, (d, reqs), res) && r == match res {
                    Ok(resp) => Ok::<u64, Status>(resp.keys_count),
                    Err(e) => Err::<u64, Status>(e),
                },
        }
}

/// Drops the rows of a bucket of the source that the target proves to hold:
/// 1. gets the key and check-token of every row of the bucket of the target,
/// 2. leaves out the rows that could not be had,
/// 3. asks the source to drop each key under its check-token,
/// 4. returns the number of rows that the source counts as dropped.
///
/// The target is asked first, and the source drops only under a token that
/// the target gave: no row leaves the source that the target did not tell
/// it holds.
pub fn drop_all_if_verified<T: SelectTarget, D: DropSource>(
    t: &T,
    d: &D,
    i: InputBucket,
    o: OutputBucket,
) -> (r: Result<u64, Status>)
    ensures
        dropped(t, d, i, o, r),
{
    let req = target::AllRequest { bkt: Some(o) };
    match t.all(req) {
        Err(e) => Err(e),
        Ok(rows) => {
            let reqs = drop_requests(rows, &i);
            match d.checked(reqs) {
                Ok(resp) => Ok(resp.keys_count),
                Err(e) => Err(e),
            }
        },
    }
}

} // verus!
