//! A table held in memory that does what the upsert and the checked drop
//! are to do: a service to test a workflow against.

use vstd::prelude::*;

use crate::conv::rpc::table::{dropped_count, dropped_table, upserted_table, Table};
use crate::rpc::source::CheckedRequest;
use crate::rpc::target::ManyRequest;

verus! {

/// Whether two runs of bytes are the same.
pub fn same_bytes(a: &Vec<u8>, b: &Vec<u8>) -> (r: bool)
    ensures
        r == (a@ == b@),
{
    if a.len() != b.len() {
        return false;
    }
    let mut i: usize = 0;
    while i < a.len()
        invariant
            a@.len() == b@.len(),
            i <= a@.len(),
            forall|j: int| 0 <= j < i ==> a@[j] == b@[j],
        decreases a@.len() - i,
    {
        if a[i] != b[i] {
            return false;
        }
        i = i + 1;
    }
    proof {
        assert(a@ =~= b@);
    }
    true
}

/// The place of a stored row: its bucket and its key.
pub open spec fn place_of(row: (Vec<u8>, Vec<u8>, Vec<u8>)) -> (Seq<u8>, Seq<u8>) {
    (row.0@, row.1@)
}

/// No two of the rows have the same place.
pub open spec fn distinct(rows: Seq<(Vec<u8>, Vec<u8>, Vec<u8>)>) -> bool {
    forall|i: int, j: int|
        0 <= i < j < rows.len() ==> place_of(#[trigger] rows[i]) != place_of(#[trigger] rows[j])
}

/// The table that the rows make: the value of each row under its place.
pub open spec fn table_of(rows: Seq<(Vec<u8>, Vec<u8>, Vec<u8>)>) -> Table {
    Map::new(
        |p: (Seq<u8>, Seq<u8>)| exists|i: int| 0 <= i < rows.len() && place_of(#[trigger] rows[i]) == p,
        |p: (Seq<u8>, Seq<u8>)|
            rows[choose|i: int| 0 <= i < rows.len() && place_of(#[trigger] rows[i]) == p].2@,
    )
}

/// Among rows of distinct places, a row's place holds the row's value.
pub proof fn lemma_table_of(rows: Seq<(Vec<u8>, Vec<u8>, Vec<u8>)>, i: int)
    requires
        distinct(rows),
        0 <= i < rows.len(),
    ensures
        table_of(rows).contains_key(place_of(rows[i])),
        table_of(rows)[place_of(rows[i])] == rows[i].2@,
{
    let p = place_of(rows[i]);
    let c = choose|c: int| 0 <= c < rows.len() && place_of(#[trigger] rows[c]) == p;
    if c < i {
        assert(place_of(rows[c]) != place_of(rows[i]));
    } else if i < c {
        assert(place_of(rows[i]) != place_of(rows[c]));
    }
}

/// A table in memory: rows of a bucket, a key and a value, no two for the
/// same key of the same bucket.
pub struct MemTable {
    rows: Vec<(Vec<u8>, Vec<u8>, Vec<u8>)>,
}

impl View for MemTable {
    type V = Table;

    closed spec fn view(&self) -> Table {
        table_of(self.rows@)
    }
}

impl MemTable {
    /// The rows are of distinct places.
    pub closed spec fn wf(&self) -> bool {
        distinct(self.rows@)
    }

    /// A table without rows.
    pub fn new() -> (t: Self)
        ensures
            t.wf(),
            t@ == Map::<(Seq<u8>, Seq<u8>), Seq<u8>>::empty(),
    {
        let t = MemTable { rows: Vec::new() };
        proof {
            assert(t@ =~= Map::<(Seq<u8>, Seq<u8>), Seq<u8>>::empty());
        }
        t
    }

    /// Where the row of a place stands, if the table holds one.
    fn find(&self, bucket: &Vec<u8>, key: &Vec<u8>) -> (r: Option<usize>)
        requires
            self.wf(),
        ensures
            match r {
                Some(i) => i < self.rows@.len() && place_of(self.rows@[i as int]) == (
                    bucket@,
                    key@,
                ),
                None => !self@.contains_key((bucket@, key@)),
            },
    {
        let mut i: usize = 0;
        while i < self.rows.len()
            invariant
                i <= self.rows@.len(),
                forall|j: int| 0 <= j < i ==> place_of(#[trigger] self.rows@[j]) != (bucket@, key@),
            decreases self.rows@.len() - i,
        {
            if same_bytes(&self.rows[i].0, bucket) && same_bytes(&self.rows[i].1, key) {
                return Some(i);
            }
            i = i + 1;
        }
        None
    }

    /// Writes a value under a key of a bucket, over the value that the key
    /// had if it had one.
    pub fn upsert(&mut self, bucket: Vec<u8>, key: Vec<u8>, val: Vec<u8>)
        requires
            old(self).wf(),
        ensures
            final(self).wf(),
            final(self)@ == old(self)@.insert((bucket@, key@), val@),
    {
        let ghost before = self.rows@;
        let ghost p = (bucket@, key@);
        match self.find(&bucket, &key) {
            Some(i) => {
                self.rows.set(i, (bucket, key, val));
                proof {
                    let after = self.rows@;
                    assert forall|a: int, b: int| 0 <= a < b < after.len() implies place_of(
                        #[trigger] after[a],
                    ) != place_of(#[trigger] after[b]) by {
                        assert(place_of(after[a]) == place_of(before[a]));
                        assert(place_of(after[b]) == place_of(before[b]));
                    }
                    assert forall|q: (Seq<u8>, Seq<u8>)| #[trigger]
                        table_of(after).dom().contains(q) == table_of(before).insert(
                            p,
                            val@,
                        ).dom().contains(q) by {
                        if table_of(after).dom().contains(q) {
                            let c = choose|c: int|
                                0 <= c < after.len() && place_of(#[trigger] after[c]) == q;
                            assert(place_of(before[c]) == q);
                        }
                        if table_of(before).dom().contains(q) {
                            let c = choose|c: int|
                                0 <= c < before.len() && place_of(#[trigger] before[c]) == q;
                            assert(place_of(after[c]) == q);
                        }
                        if q == p {
                            assert(place_of(after[i as int]) == q);
                        }
                    }
                    assert forall|q: (Seq<u8>, Seq<u8>)| #[trigger]
                        table_of(after).dom().contains(q) implies table_of(after)[q] == table_of(
                        before,
                    ).insert(p, val@)[q] by {
                        let c = choose|c: int|
                            0 <= c < after.len() && place_of(#[trigger] after[c]) == q;
                        lemma_table_of(after, c);
                        if c != i {
                            lemma_table_of(before, c);
                            assert(after[c] == before[c]);
                            assert(place_of(before[c]) != place_of(before[i as int]));
                        }
                    }
                    assert(table_of(after).dom() =~= table_of(before).insert(p, val@).dom());
                    assert(table_of(after) =~= table_of(before).insert(p, val@));
                }
            },
            None => {
                self.rows.push((bucket, key, val));
                proof {
                    let after = self.rows@;
                    let n = before.len() as int;
                    assert forall|a: int, b: int| 0 <= a < b < after.len() implies place_of(
                        #[trigger] after[a],
                    ) != place_of(#[trigger] after[b]) by {
                        assert(after[a] == before[a]);
                        if b < n {
                            assert(after[b] == before[b]);
                        } else {
                            assert(place_of(before[a]) == place_of(after[a]));
                            if place_of(after[a]) == p {
                                assert(table_of(before).dom().contains(p));
                            }
                        }
                    }
                    assert forall|q: (Seq<u8>, Seq<u8>)| #[trigger]
                        table_of(after).dom().contains(q) == table_of(before).insert(
                            p,
                            val@,
                        ).dom().contains(q) by {
                        if table_of(after).dom().contains(q) {
                            let c = choose|c: int|
                                0 <= c < after.len() && place_of(#[trigger] after[c]) == q;
                            if c < n {
                                assert(place_of(before[c]) == q);
                            }
                        }
                        if table_of(before).dom().contains(q) {
                            let c = choose|c: int|
                                0 <= c < before.len() && place_of(#[trigger] before[c]) == q;
                            assert(place_of(after[c]) == q);
                        }
                        if q == p {
                            assert(place_of(after[n]) == q);
                        }
                    }
                    assert forall|q: (Seq<u8>, Seq<u8>)| #[trigger]
                        table_of(after).dom().contains(q) implies table_of(after)[q] == table_of(
                        before,
                    ).insert(p, val@)[q] by {
                        let c = choose|c: int|
                            0 <= c < after.len() && place_of(#[trigger] after[c]) == q;
                        lemma_table_of(after, c);
                        if c < n {
                            lemma_table_of(before, c);
                            assert(after[c] == before[c]);
                        }
                    }
                    assert(table_of(after).dom() =~= table_of(before).insert(p, val@).dom());
                    assert(table_of(after) =~= table_of(before).insert(p, val@));
                }
            },
        }
    }

    /// Deletes the row of a key of a bucket if the check-token is the value
    /// that the table holds for it, and tells whether it did.
    pub fn drop_one(&mut self, bucket: &Vec<u8>, key: &Vec<u8>, check: &Vec<u8>) -> (done: bool)
        requires
            old(self).wf(),
        ensures
            final(self).wf(),
            done == (old(self)@.contains_key((bucket@, key@)) && old(self)@[(bucket@, key@)]
                == check@),
            done ==> final(self)@ == old(self)@.remove((bucket@, key@)),
            !done ==> final(self)@ == old(self)@,
    {
        let ghost before = self.rows@;
        let ghost p = (bucket@, key@);
        match self.find(bucket, key) {
            None => false,
            Some(i) => {
                proof {
                    lemma_table_of(before, i as int);
                }
                if !same_bytes(&self.rows[i].2, check) {
                    return false;
                }
                let _ = self.rows.remove(i);
                proof {
                    let after = self.rows@;
                    assert forall|a: int| 0 <= a < after.len() implies #[trigger] after[a] == before[if a
                        < i {
                        a
                    } else {
                        a + 1
                    }] by {}
                    assert forall|a: int, b: int| 0 <= a < b < after.len() implies place_of(
                        #[trigger] after[a],
                    ) != place_of(#[trigger] after[b]) by {
                        let a0 = if a < i {
                            a
                        } else {
                            a + 1
                        };
                        let b0 = if b < i {
                            b
                        } else {
                            b + 1
                        };
                        assert(place_of(before[a0]) != place_of(before[b0]));
                    }
                    assert forall|q: (Seq<u8>, Seq<u8>)| #[trigger]
                        table_of(after).dom().contains(q) == table_of(before).remove(
                            p,
                        ).dom().contains(q) by {
                        if table_of(after).dom().contains(q) {
                            let c = choose|c: int|
                                0 <= c < after.len() && place_of(#[trigger] after[c]) == q;
                            let c0 = if c < i {
                                c
                            } else {
                                c + 1
                            };
                            assert(place_of(before[c0]) == q);
                            if c0 < i {
                                assert(place_of(before[c0]) != place_of(before[i as int]));
                            } else {
                                assert(place_of(before[i as int]) != place_of(before[c0]));
                            }
                        }
                        if table_of(before).dom().contains(q) && q != p {
                            let c = choose|c: int|
                                0 <= c < before.len() && place_of(#[trigger] before[c]) == q;
                            let c1 = if c < i {
                                c
                            } else {
                                c - 1
                            };
                            assert(place_of(after[c1]) == q);
                        }
                    }
                    assert forall|q: (Seq<u8>, Seq<u8>)| #[trigger]
                        table_of(after).dom().contains(q) implies table_of(after)[q] == table_of(
                        before,
                    ).remove(p)[q] by {
                        let c = choose|c: int|
                            0 <= c < after.len() && place_of(#[trigger] after[c]) == q;
                        let c0 = if c < i {
                            c
                        } else {
                            c + 1
                        };
                        lemma_table_of(after, c);
                        lemma_table_of(before, c0);
                    }
                    assert(table_of(after).dom() =~= table_of(before).remove(p).dom());
                    assert(table_of(after) =~= table_of(before).remove(p));
                }
                true
            },
        }
    }

    /// Does the upserts in order, and returns their number: every upsert is
    /// written, and each counts once.
    pub fn upsert_many(&mut self, reqs: Vec<ManyRequest>) -> (n: u64)
        requires
            old(self).wf(),
        ensures
            final(self).wf(),
            final(self)@ == upserted_table(old(self)@, reqs@),
            n == reqs@.len(),
    {
        let ghost all = reqs@;
        let ghost start = self@;
        let mut n: u64 = 0;
        proof {
            assert(reqs.len() <= usize::MAX);
        }
        for req in it: reqs.into_iter()
            invariant
                it.seq() == all,
                self.wf(),
                self@ == upserted_table(start, all.take(it.index())),
                n == it.index(),
                all.len() <= usize::MAX,
        {
            proof {
                assert(all.take(it.index() + 1).drop_last() == all.take(it.index()));
            }
            let bucket = match req.bkt {
                Some(b) => b.bucket,
                None => Vec::new(),
            };
            self.upsert(bucket, req.key, req.val);
            n = n + 1;
        }
        proof {
            assert(all.take(all.len() as int) == all);
        }
        n
    }

    /// Does the checked drops in order, and returns how many rows were
    /// deleted: a row leaves the table only under the token that the table
    /// holds for it.
    pub fn drop_checked(&mut self, reqs: Vec<CheckedRequest>) -> (n: u64)
        requires
            old(self).wf(),
        ensures
            final(self).wf(),
            final(self)@ == dropped_table(old(self)@, reqs@),
            n == dropped_count(old(self)@, reqs@),
    {
        let ghost all = reqs@;
        let ghost start = self@;
        let mut n: u64 = 0;
        proof {
            assert(reqs.len() <= usize::MAX);
        }
        for req in it: reqs.into_iter()
            invariant
                it.seq() == all,
                self.wf(),
                self@ == dropped_table(start, all.take(it.index())),
                n == dropped_count(start, all.take(it.index())),
                n <= it.index(),
                all.len() <= usize::MAX,
        {
            proof {
                assert(all.take(it.index() + 1).drop_last() == all.take(it.index()));
            }
            let done = match &req.bkt {
                Some(b) => self.drop_one(&b.bucket, &req.key, &req.check),
                None => {
                    let unnamed: Vec<u8> = Vec::new();
                    self.drop_one(&unnamed, &req.key, &req.check)
                },
            };
            if done {
                n = n + 1;
            }
        }
        proof {
            assert(all.take(all.len() as int) == all);
        }
        n
    }

    /// The rows of a bucket, each key with its value, once each.
    pub fn select_all(&self, bucket: &Vec<u8>) -> (out: Vec<(Vec<u8>, Vec<u8>)>)
        requires
            self.wf(),
        ensures
            forall|i: int|
                0 <= i < out@.len() ==> self@.contains_key((bucket@, (#[trigger] out@[i]).0@))
                    && self@[(bucket@, out@[i].0@)] == out@[i].1@,
            forall|key: Seq<u8>| #[trigger]
                self@.contains_key((bucket@, key)) ==> exists|i: int|
                    0 <= i < out@.len() && (#[trigger] out@[i]).0@ == key,
            forall|i: int, j: int|
                0 <= i < j < out@.len() ==> (#[trigger] out@[i]).0@ != (#[trigger] out@[j]).0@,
    {
        let mut out: Vec<(Vec<u8>, Vec<u8>)> = Vec::new();
        let ghost mut from: Seq<int> = Seq::empty();
        let mut i: usize = 0;
        while i < self.rows.len()
            invariant
                self.wf(),
                i <= self.rows@.len(),
                from.len() == out@.len(),
                forall|k: int|
                    0 <= k < out@.len() ==> 0 <= (#[trigger] from[k]) < i && self.rows@[from[k]].0@
                        == bucket@ && self.rows@[from[k]].1@ == out@[k].0@ && self.rows@[from[k]].2@
                        == out@[k].1@,
                forall|k: int, l: int| 0 <= k < l < from.len() ==> (#[trigger] from[k]) < (
                #[trigger] from[l]),
                forall|j: int|
                    0 <= j < i && (#[trigger] self.rows@[j]).0@ == bucket@ ==> exists|k: int|
                        0 <= k < from.len() && #[trigger] from[k] == j,
            decreases self.rows@.len() - i,
        {
            if same_bytes(&self.rows[i].0, bucket) {
                let ghost held = from;
                out.push((self.rows[i].1.clone(), self.rows[i].2.clone()));
                proof {
                    from = held.push(i as int);
                    assert forall|j: int|
                        0 <= j < i + 1 && (#[trigger] self.rows@[j]).0@ == bucket@ implies exists|
                        k: int,
                    |
                        0 <= k < from.len() && #[trigger] from[k] == j by {
                        if j < i {
                            let k = choose|k: int| 0 <= k < held.len() && #[trigger] held[k] == j;
                            assert(from[k] == j);
                        } else {
                            assert(from[held.len() as int] == j);
                        }
                    }
                }
            }
            i = i + 1;
        }
        proof {
            let rows = self.rows@;
            assert forall|k: int| 0 <= k < out@.len() implies self@.contains_key(
                (bucket@, (#[trigger] out@[k]).0@),
            ) && self@[(bucket@, out@[k].0@)] == out@[k].1@ by {
                lemma_table_of(rows, from[k]);
            }
            assert forall|key: Seq<u8>| #[trigger]
                self@.contains_key((bucket@, key)) implies exists|k: int|
                0 <= k < out@.len() && (#[trigger] out@[k]).0@ == key by {
                let j = choose|j: int|
                    0 <= j < rows.len() && place_of(#[trigger] rows[j]) == (bucket@, key);
                let k = choose|k: int| 0 <= k < from.len() && #[trigger] from[k] == j;
                assert(out@[k].0@ == key);
            }
            assert forall|k: int, l: int| 0 <= k < l < out@.len() implies (#[trigger] out@[k]).0@
                != (#[trigger] out@[l]).0@ by {
                assert(from[k] < from[l]);
                assert(place_of(rows[from[k]]) != place_of(rows[from[l]]));
            }
        }
        out
    }
}

} // verus!
