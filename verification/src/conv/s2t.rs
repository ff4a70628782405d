//! Select from a source, convert, upsert into a target.

use tonic::Status;
use vstd::prelude::*;

use crate::input::select::Select;
use crate::output::upsert::Upsert;

verus! {

/// `out` is what the conversion makes of `row`: an error passes through, a
/// row becomes what `conv` returned for it.
pub open spec fn converted<A, B, C: Fn(A) -> Result<B, Status>>(
    conv: &C,
    row: Result<A, Status>,
    out: Result<B, Status>,
) -> bool {
    match row {
        Err(e) => out == Err::<B, Status>(e),
        Ok(a) => call_ensures(*conv, (a,), out),
    }
}

/// `out` is `rows` converted row by row, in the same order.
pub open spec fn converted_all<A, B, C: Fn(A) -> Result<B, Status>>(
    conv: &C,
    rows: Seq<Result<A, Status>>,
    out: Seq<Result<B, Status>>,
) -> bool {
    out.len() == rows.len() && forall|i: int|
        0 <= i < rows.len() ==> converted(conv, rows[i], #[trigger] out[i])
}

/// Converts every selected row for the target, each on its own: a row that
/// could not be selected or converted stays in its place as an error.
pub fn convert_selected<A, B, C: Fn(A) -> Result<B, Status>>(
    rows: Vec<Result<A, Status>>,
    conv: &C,
) -> (out: Vec<Result<B, Status>>)
    requires
        forall|a: A| call_requires(*conv, (a,)),
    ensures
        converted_all(conv, rows@, out@),
{
    let mut out: Vec<Result<B, Status>> = Vec::new();
    let ghost all = rows@;
    for row in it: rows.into_iter()
        invariant
            it.seq() == all,
            forall|a: A| call_requires(*conv, (a,)),
            converted_all(conv, all.take(it.index()), out@),
    {
        let o = match row {
            Err(e) => Err(e),
            Ok(a) => conv(a),
        };
        out.push(o);
    }
    proof {
        assert(all.take(all.len() as int) == all);
    }
    out
}

/// `r` is what the workflow comes to: the failure of the selection, or what
/// the upsert returned for the converted rows.
pub open spec fn upserted<I, O, S, U, C>(
    ibucket: I,
    obucket: O,
    sel: &S,
    ups: &U,
    conv: &C,
    r: Result<u64, Status>,
) -> bool where
    S: Select<Bucket = I>,
    U: Upsert<Bucket = O>,
    C: Fn(<S as Select>::Row) -> Result<<U as Upsert>::Row, Status>,
 {
    exists|selected: Result<Vec<Result<<S as Select>::Row, Status>>, Status>|
        #![trigger call_ensures(S::all, (sel, ibucket), selected)]
        call_ensures(S::all, (sel, ibucket), selected) && match selected {
            Err(e) => r == Err::<u64, Status>(e),
            Ok(rows) => exists|sent: Vec<Result<<U as Upsert>::Row, Status>>|
                #![trigger call_ensures(U::upsert, (ups, obucket, sent), r)]
                converted_all(conv, rows@, sent@) && call_ensures(U::upsert, (ups, obucket, sent), r),
        }
}

/// Selects all rows of a bucket of the source, converts them, and upserts
/// them into a bucket of the target. Returns what the target counts.
pub fn upsert_selected<I, O, S, U, C>(ibucket: I, obucket: O, sel: &S, ups: &U, conv: &C) -> (r:
    Result<u64, Status>) where
    S: Select<Bucket = I>,
    U: Upsert<Bucket = O>,
    C: Fn(<S as Select>::Row) -> Result<<U as Upsert>::Row, Status>,

    requires
        forall|a: <S as Select>::Row| call_requires(*conv, (a,)),
    ensures
        upserted(ibucket, obucket, sel, ups, conv, r),
{
    match sel.all(ibucket) {
        Err(e) => Err(e),
        Ok(rows) => {
            let converted = convert_selected(rows, conv);
            ups.upsert(obucket, converted)
        },
    }
}

} // verus!
