//! Lines, each decoded into a row by a decoder that the caller gives.

use vstd::prelude::*;

verus! {

/// `serde_json::Error`, carried through as it is: nothing inside it is
/// read.
#[verifier::external_type_specification]
#[verifier::external_body]
pub struct ExJsonError(serde_json::Error);

/// `out` is `lines` decoded line by line, in the same order: item `i` is
/// what `conv` returned for line `i`.
pub open spec fn decoded<L, T, C>(lines: Seq<L>, conv: C, out: Seq<Result<T, serde_json::Error>>) -> bool where
    C: Fn(L) -> Result<T, serde_json::Error>,
 {
    out.len() == lines.len() && forall|i: int|
        0 <= i < lines.len() ==> call_ensures(conv, (lines[i],), #[trigger] out[i])
}

/// Decodes every line of text, each on its own: a line that could not be
/// read or decoded is what `conv` makes of it, and stops nothing.
pub fn from_strings<T, C>(strings: Vec<Result<String, std::io::Error>>, conv: C) -> (out: Vec<
    Result<T, serde_json::Error>,
>) where C: Fn(Result<String, std::io::Error>) -> Result<T, serde_json::Error>
    requires
        forall|s: Result<String, std::io::Error>| call_requires(conv, (s,)),
    ensures
        decoded(strings@, conv, out@),
{
    let mut out: Vec<Result<T, serde_json::Error>> = Vec::new();
    let ghost all = strings@;
    for s in it: strings.into_iter()
        invariant
            it.seq() == all,
            forall|s: Result<String, std::io::Error>| call_requires(conv, (s,)),
            decoded(all.take(it.index()), conv, out@),
    {
        let row = conv(s);
        out.push(row);
    }
    proof {
        assert(all.take(all.len() as int) == all);
    }
    out
}

/// Decodes every line of bytes, each on its own: a line that could not be
/// read or decoded is what `conv` makes of it, and stops nothing.
pub fn from_slices<T, C>(slices: Vec<Result<Vec<u8>, std::io::Error>>, conv: C) -> (out: Vec<
    Result<T, serde_json::Error>,
>) where C: Fn(Result<Vec<u8>, std::io::Error>) -> Result<T, serde_json::Error>
    requires
        forall|s: Result<Vec<u8>, std::io::Error>| call_requires(conv, (s,)),
    ensures
        decoded(slices@, conv, out@),
{
    let mut out: Vec<Result<T, serde_json::Error>> = Vec::new();
    let ghost all = slices@;
    for s in it: slices.into_iter()
        invariant
            it.seq() == all,
            forall|s: Result<Vec<u8>, std::io::Error>| call_requires(conv, (s,)),
            decoded(all.take(it.index()), conv, out@),
    {
        let row = conv(s);
        out.push(row);
    }
    proof {
        assert(all.take(all.len() as int) == all);
    }
    out
}

} // verus!
