//! Turning what a caller hands to the constructor into a shape and a list of
//! skip depths.

use crate::counter::{ints, lemma_positive_push, lemma_registered_next, positive, registered};
use vstd::prelude::*;

verus! {

/// A vector of `len` zeros.
pub(crate) fn zeros(len: usize) -> (out: Vec<usize>)
    ensures
        out@.len() == len,
        forall|i: int| 0 <= i < len ==> out@[i] == 0,
{
    let mut out: Vec<usize> = Vec::new();
    let mut i: usize = 0;
    while i < len
        invariant
            i <= len,
            out@.len() == i,
            forall|j: int| 0 <= j < i ==> out@[j] == 0,
        decreases len - i,
    {
        out.push(0);
        i += 1;
    }
    out
}

/// The positive entries of `sizes`, in order.
pub(crate) fn keep_positive(sizes: &Vec<usize>) -> (out: Vec<usize>)
    ensures
        ints(out@) == positive(ints(sizes@)),
{
    let mut out: Vec<usize> = Vec::new();
    let mut i: usize = 0;
    assert(ints(sizes@).take(0) =~= Seq::<int>::empty());
    assert(positive(Seq::<int>::empty()) =~= ints(out@)) by {
        reveal(Seq::filter);
    }
    while i < sizes.len()
        invariant
            i <= sizes.len(),
            ints(out@) == positive(ints(sizes@).take(i as int)),
        decreases sizes.len() - i,
    {
        let n: usize = sizes[i];
        proof {
            let seen = ints(sizes@).take(i as int);
            assert(ints(sizes@).take(i + 1) =~= seen.push(n as int));
            lemma_positive_push(seen, n as int);
            assert(ints(out@.push(n)) =~= ints(out@).push(n as int));
        }
        if n > 0 {
            out.push(n);
        }
        i += 1;
    }
    assert(ints(sizes@).take(sizes.len() as int) =~= ints(sizes@));
    out
}

/// Whether `d` occurs among the first `upto` candidates.
pub(crate) open spec fn occurs(candidates: Seq<usize>, upto: int, d: int) -> bool {
    exists|i: int| 0 <= i < upto && #[trigger] candidates[i] == d
}

/// The depths of a counter with `len` dimensions that occur among
/// `candidates`, each once, in ascending order.
///
/// A table with one entry per position records which depths occur; reading
/// it from the outermost position down yields them sorted and without
/// repetition.
pub(crate) fn register(candidates: &Vec<usize>, len: usize) -> (out: Vec<usize>)
    ensures
        ints(out@) == registered(ints(candidates@), len as int),
{
    let mut table: Vec<usize> = zeros(len);
    let mut j: usize = 0;
    while j < candidates.len()
        invariant
            j <= candidates.len(),
            table@.len() == len,
            forall|p: int|
                0 <= p < len ==> #[trigger] table@[p] == if occurs(candidates@, j as int, p + 2) {
                    p + 2
                } else {
                    0
                },
        decreases candidates.len() - j,
    {
        let d: usize = candidates[j];
        if d >= 2 && d - 2 < len {
            table.set(d - 2, d);
        }
        j += 1;
    }
    let mut out: Vec<usize> = Vec::new();
    let mut p: usize = 0;
    assert(registered(ints(candidates@), 0) =~= ints(out@)) by {
        reveal(Seq::filter);
    }
    while p < len
        invariant
            p <= len,
            j == candidates.len(),
            table@.len() == len,
            forall|q: int|
                0 <= q < len ==> #[trigger] table@[q] == if occurs(candidates@, j as int, q + 2) {
                    q + 2
                } else {
                    0
                },
            ints(out@) == registered(ints(candidates@), p as int),
        decreases len - p,
    {
        let d: usize = table[p];
        proof {
            lemma_registered_next(ints(candidates@), p as int);
            assert(ints(out@.push(d)) =~= ints(out@).push(d as int));
            if occurs(candidates@, j as int, p + 2) {
                let i = choose|i: int| 0 <= i < j && #[trigger] candidates@[i] == p + 2;
                assert(ints(candidates@)[i] == p + 2);
            }
            if ints(candidates@).contains(p + 2) {
                let i = choose|i: int|
                    0 <= i < ints(candidates@).len() && ints(candidates@)[i] == p + 2;
                assert(candidates@[i] == p + 2);
            }
        }
        if d != 0 {
            out.push(d);
        }
        p += 1;
    }
    out
}

} // verus!
