//! Copying and joining candidates.

use crate::model::{fits, join};
use vstd::prelude::*;
use vstd::seq_lib::lemma_flatten_concat;

verus! {

/// Says whether a candidate is within the length limit, if there is one.
pub(crate) fn within(candidate: &Vec<u8>, max_length: Option<usize>) -> (r: bool)
    ensures
        r == fits(candidate@, max_length),
{
    match max_length {
        Some(limit) => candidate.len() <= limit,
        None => true,
    }
}

/// Copies a candidate.
pub(crate) fn copy_bytes(bytes: &Vec<u8>) -> (r: Vec<u8>)
    ensures
        r@ == bytes@,
{
    let mut out: Vec<u8> = Vec::new();
    let mut i: usize = 0;
    while i < bytes.len()
        invariant
            i <= bytes.len(),
            out@ == bytes@.take(i as int),
        decreases bytes.len() - i,
    {
        out.push(bytes[i]);
        assert(bytes@.take(i + 1) =~= bytes@.take(i as int).push(bytes@[i as int]));
        i += 1;
    }
    assert(bytes@.take(bytes@.len() as int) =~= bytes@);
    out
}

/// Copies a tuple of candidates.
pub(crate) fn copy_tuple(tuple: &Vec<Vec<u8>>) -> (r: Vec<Vec<u8>>)
    ensures
        r.deep_view() == tuple.deep_view(),
{
    let mut out: Vec<Vec<u8>> = Vec::new();
    let mut i: usize = 0;
    while i < tuple.len()
        invariant
            i <= tuple.len(),
            out.len() == i,
            forall|j: int| 0 <= j < i ==> (#[trigger] out[j])@ == tuple[j]@,
        decreases tuple.len() - i,
    {
        out.push(copy_bytes(&tuple[i]));
        i += 1;
    }
    assert(out.deep_view() =~= tuple.deep_view());
    out
}

/// Joins the candidates of a tuple, in order, into one candidate.
pub(crate) fn join_tuple(tuple: &Vec<Vec<u8>>) -> (r: Vec<u8>)
    ensures
        r@ == join(tuple.deep_view()),
{
    let ghost parts = tuple.deep_view();
    let mut out: Vec<u8> = Vec::new();
    let mut i: usize = 0;
    assert(parts.take(0) =~= Seq::<Seq<u8>>::empty());
    while i < tuple.len()
        invariant
            i <= tuple.len(),
            parts == tuple.deep_view(),
            out@ == parts.take(i as int).flatten(),
        decreases tuple.len() - i,
    {
        let part = &tuple[i];
        let ghost before = out@;
        let mut k: usize = 0;
        while k < part.len()
            invariant
                k <= part.len(),
                out@ == before + part@.take(k as int),
            decreases part.len() - k,
        {
            out.push(part[k]);
            assert(part@.take(k + 1) =~= part@.take(k as int).push(part@[k as int]));
            k += 1;
        }
        proof {
            assert(part@.take(part@.len() as int) =~= part@);
            assert(parts[i as int] == part@);
            let one = seq![part@];
            assert(parts.take(i + 1) =~= parts.take(i as int) + one);
            lemma_flatten_concat(parts.take(i as int), one);
            one.lemma_flatten_one_element();
        }
        i += 1;
    }
    assert(parts.take(parts.len() as int) =~= parts);
    out
}

} // verus!
