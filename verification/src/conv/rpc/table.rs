//! What the upsert and the checked drop do to the rows that a service holds,
//! and what follows for the two workflows.

use tonic::Status;
use vstd::prelude::*;

use crate::conv::rpc::src2tgt::upserts_of;
use crate::rpc::source::{AllResponse, CheckedRequest};
use crate::rpc::target::ManyRequest;

verus! {

/// The rows that a service holds: the value of each key of each bucket.
pub type Table = Map<(Seq<u8>, Seq<u8>), Seq<u8>>;

/// The bucket and key that an upsert writes.
pub open spec fn upsert_place(req: ManyRequest) -> (Seq<u8>, Seq<u8>) {
    (
        match req.bkt {
            Some(b) => b@,
            None => Seq::empty(),
        },
        req.key@,
    )
}

/// The bucket and key that a checked drop names.
pub open spec fn drop_place(req: CheckedRequest) -> (Seq<u8>, Seq<u8>) {
    (
        match req.bkt {
            Some(b) => b@,
            None => Seq::empty(),
        },
        req.key@,
    )
}

/// The table after the upserts, done in order: each writes its value over
/// what its place held.
pub open spec fn upserted_table(t: Table, reqs: Seq<ManyRequest>) -> Table
    decreases reqs.len(),
{
    if reqs.len() == 0 {
        t
    } else {
        upserted_table(t, reqs.drop_last()).insert(upsert_place(reqs.last()), reqs.last().val@)
    }
}

/// Whether a checked drop deletes from the table: its place holds a row, and
/// the token is the one held there.
pub open spec fn verified(t: Table, req: CheckedRequest) -> bool {
    t.contains_key(drop_place(req)) && t[drop_place(req)] == req.check@
}

/// The table after the checked drops, done in order: each deletes the row
/// of its place if the token is the one held there, and else nothing.
pub open spec fn dropped_table(t: Table, reqs: Seq<CheckedRequest>) -> Table
    decreases reqs.len(),
{
    if reqs.len() == 0 {
        t
    } else {
        let before = dropped_table(t, reqs.drop_last());
        if verified(before, reqs.last()) {
            before.remove(drop_place(reqs.last()))
        } else {
            before
        }
    }
}

/// How many rows the checked drops delete.
pub open spec fn dropped_count(t: Table, reqs: Seq<CheckedRequest>) -> nat
    decreases reqs.len(),
{
    if reqs.len() == 0 {
        0
    } else {
        let before = dropped_table(t, reqs.drop_last());
        dropped_count(t, reqs.drop_last()) + if verified(before, reqs.last()) {
            1nat
        } else {
            0nat
        }
    }
}

/// The index of the last upsert that writes `place`, or -1 where none does.
pub open spec fn last_upsert(reqs: Seq<ManyRequest>, place: (Seq<u8>, Seq<u8>)) -> int
    decreases reqs.len(),
{
    if reqs.len() == 0 {
        -1
    } else if upsert_place(reqs.last()) == place {
        reqs.len() - 1
    } else {
        last_upsert(reqs.drop_last(), place)
    }
}

/// After upserts, a place holds the value of the last upsert that wrote it,
/// and a place that none wrote holds what it held.
pub proof fn lemma_upserted_table(t: Table, reqs: Seq<ManyRequest>, place: (Seq<u8>, Seq<u8>))
    ensures
        -1 <= last_upsert(reqs, place) < reqs.len(),
        last_upsert(reqs, place) >= 0 ==> upserted_table(t, reqs).contains_key(place)
            && upserted_table(t, reqs)[place] == reqs[last_upsert(reqs, place)].val@,
        last_upsert(reqs, place) < 0 ==> upserted_table(t, reqs).contains_key(place)
            == t.contains_key(place) && (t.contains_key(place) ==> upserted_table(t, reqs)[place]
            == t[place]),
    decreases reqs.len(),
{
    if reqs.len() > 0 {
        lemma_upserted_table(t, reqs.drop_last(), place);
        let h = last_upsert(reqs.drop_last(), place);
        if h >= 0 {
            assert(reqs.drop_last()[h] == reqs[h]);
        }
    }
}

/// A migration run again changes nothing: upserting the same rows once more
/// leaves the table as the first run left it. The count of a run is the
/// number of its upserts, the same each time.
pub proof fn lemma_upsert_again(t: Table, reqs: Seq<ManyRequest>)
    ensures
        upserted_table(upserted_table(t, reqs), reqs) == upserted_table(t, reqs),
{
    let once = upserted_table(t, reqs);
    let twice = upserted_table(once, reqs);
    assert forall|place: (Seq<u8>, Seq<u8>)| #[trigger]
        twice.dom().contains(place) == once.dom().contains(place) by {
        lemma_upserted_table(t, reqs, place);
        lemma_upserted_table(once, reqs, place);
    }
    assert forall|place: (Seq<u8>, Seq<u8>)| #[trigger]
        once.dom().contains(place) implies twice[place] == once[place] by {
        lemma_upserted_table(t, reqs, place);
        lemma_upserted_table(once, reqs, place);
    }
    assert(twice.dom() =~= once.dom());
    assert(twice =~= once);
}

/// Upserts that write the same values to the same places do the same to a
/// table.
pub proof fn lemma_same_upserts(t: Table, a: Seq<ManyRequest>, b: Seq<ManyRequest>)
    requires
        a.len() == b.len(),
        forall|j: int|
            0 <= j < a.len() ==> upsert_place(#[trigger] a[j]) == upsert_place(b[j]) && a[j].val@
                == b[j].val@,
    ensures
        upserted_table(t, a) == upserted_table(t, b),
    decreases a.len(),
{
    if a.len() > 0 {
        let fa = a.drop_last();
        let fb = b.drop_last();
        assert forall|j: int| 0 <= j < fa.len() implies upsert_place(#[trigger] fa[j])
            == upsert_place(fb[j]) && fa[j].val@ == fb[j].val@ by {
            assert(fa[j] == a[j]);
            assert(fb[j] == b[j]);
        }
        lemma_same_upserts(t, fa, fb);
        assert(upsert_place(a[a.len() - 1]) == upsert_place(b[a.len() - 1]));
    }
}

/// Idempotence of the migration: two runs that select the same rows send the
/// same number of upserts, and the second run leaves the table of the
/// target as the first run left it.
pub proof fn lemma_migrate_again(
    t: Table,
    rows: Seq<Result<AllResponse, Status>>,
    o: Seq<u8>,
    first: Seq<ManyRequest>,
    second: Seq<ManyRequest>,
)
    requires
        upserts_of(rows, o, first),
        upserts_of(rows, o, second),
    ensures
        first.len() == second.len(),
        upserted_table(upserted_table(t, first), second) == upserted_table(t, first),
{
    lemma_same_upserts(upserted_table(t, first), second, first);
    lemma_upsert_again(t, first);
}

/// A checked drop never deletes a row whose token it was not given: a row
/// for which no request carries the token held stays as it is, and no row
/// appears or changes.
pub proof fn lemma_drop_only_verified(t: Table, reqs: Seq<CheckedRequest>, place: (Seq<u8>, Seq<u8>))
    ensures
        dropped_table(t, reqs).contains_key(place) ==> t.contains_key(place) && dropped_table(
            t,
            reqs,
        )[place] == t[place],
        t.contains_key(place) && (forall|j: int|
            0 <= j < reqs.len() ==> !(drop_place(#[trigger] reqs[j]) == place && reqs[j].check@
                == t[place])) ==> dropped_table(t, reqs).contains_key(place),
    decreases reqs.len(),
{
    if reqs.len() > 0 {
        let front = reqs.drop_last();
        lemma_drop_only_verified(t, front, place);
        if t.contains_key(place) && (forall|j: int|
            0 <= j < reqs.len() ==> !(drop_place(#[trigger] reqs[j]) == place && reqs[j].check@
                == t[place])) {
            assert forall|j: int| 0 <= j < front.len() implies !(drop_place(#[trigger] front[j])
                == place && front[j].check@ == t[place]) by {
                assert(front[j] == reqs[j]);
            }
            assert(!(drop_place(reqs[reqs.len() - 1]) == place && reqs[reqs.len() - 1].check@
                == t[place]));
        }
    }
}

/// The checked drops delete as many rows as they count.
pub proof fn lemma_dropped_count(t: Table, reqs: Seq<CheckedRequest>)
    requires
        t.dom().finite(),
    ensures
        dropped_table(t, reqs).dom().finite(),
        dropped_table(t, reqs).len() + dropped_count(t, reqs) == t.len(),
    decreases reqs.len(),
{
    if reqs.len() > 0 {
        lemma_dropped_count(t, reqs.drop_last());
    }
}

} // verus!
