//! Coordinates and their place in row-major order.
//!
//! A coordinate is a number written in mixed radix, with the sizes of the
//! dimensions as the radices. Its rank is that number: the count of
//! coordinates that come before it. An innermost advance goes to the next
//! rank, and an advance at an outer position goes to the start of the next
//! subtree below that position.

use crate::counter::{coord_after, lemma_settle, placed, settle, sizes_ok};
use vstd::prelude::*;

verus! {

/// The number of coordinates in the space: the product of the sizes.
pub open spec fn volume(shape: Seq<int>) -> int
    decreases shape.len(),
{
    if shape.len() == 0 {
        1
    } else {
        volume(shape.drop_last()) * shape.last()
    }
}

/// The place of `coord` in row-major order, counted from zero.
pub open spec fn rank(shape: Seq<int>, coord: Seq<int>) -> int
    decreases shape.len(),
{
    if shape.len() == 0 {
        0
    } else {
        rank(shape.drop_last(), coord.drop_last()) * shape.last() + coord.last()
    }
}

/// A rank is never negative, a space is never empty, and a coordinate is
/// ranked below the size of the space exactly when its outermost position
/// lies inside its dimension.
pub proof fn lemma_rank_bounds(shape: Seq<int>, coord: Seq<int>)
    requires
        sizes_ok(shape),
        placed(shape, coord),
    ensures
        rank(shape, coord) >= 0,
        volume(shape) >= 1,
        shape.len() > 0 ==> (rank(shape, coord) < volume(shape) <==> coord[0] < shape[0]),
    decreases shape.len(),
{
    if shape.len() > 0 {
        let s = shape.drop_last();
        let c = coord.drop_last();
        let b = shape.last();
        let d = coord.last();
        lemma_rank_bounds(s, c);
        let r = rank(s, c);
        let v = volume(s);
        if shape.len() == 1 {
            assert(r == 0 && v == 1);
            assert(r * b + d == d) by (nonlinear_arith)
                requires
                    r == 0,
            ;
            assert(v * b == b) by (nonlinear_arith)
                requires
                    v == 1,
            ;
        } else {
            assert(c[0] == coord[0] && s[0] == shape[0]);
            assert(r * b + d >= 0) by (nonlinear_arith)
                requires
                    r >= 0,
                    b >= 1,
                    d >= 0,
            ;
            assert(v * b >= 1) by (nonlinear_arith)
                requires
                    v >= 1,
                    b >= 1,
            ;
            if r < v {
                assert(r * b + d < v * b) by (nonlinear_arith)
                    requires
                        r + 1 <= v,
                        0 <= d < b,
                ;
            } else {
                assert(r * b + d >= v * b) by (nonlinear_arith)
                    requires
                        r >= v,
                        d >= 0,
                        b >= 1,
                ;
            }
        }
    }
}

/// The all-zero coordinate comes first.
pub proof fn lemma_rank_zeros(shape: Seq<int>, coord: Seq<int>)
    requires
        coord.len() == shape.len(),
        forall|i: int| 0 <= i < coord.len() ==> coord[i] == 0,
    ensures
        rank(shape, coord) == 0,
    decreases shape.len(),
{
    if shape.len() > 0 {
        lemma_rank_zeros(shape.drop_last(), coord.drop_last());
        let r = rank(shape.drop_last(), coord.drop_last());
        assert(r * shape.last() == 0) by (nonlinear_arith)
            requires
                r == 0,
        ;
    }
}

/// Where a carry settles depends only on the positions at and above its
/// start.
pub proof fn lemma_settle_prefix(shape: Seq<int>, coord: Seq<int>, m: int, k: int)
    requires
        0 <= k < m <= shape.len(),
        coord.len() == shape.len(),
    ensures
        settle(shape.take(m), coord.take(m), k) == settle(shape, coord, k),
    decreases k,
{
    if k > 0 && coord[k] + 1 >= shape[k] {
        lemma_settle_prefix(shape, coord, m, k - 1);
    }
}

/// An innermost advance leads to the coordinate of the next rank.
pub proof fn lemma_rank_successor(shape: Seq<int>, coord: Seq<int>)
    requires
        sizes_ok(shape),
        placed(shape, coord),
        shape.len() > 0,
    ensures
        rank(shape, coord_after(shape, coord, shape.len() - 1)) == rank(shape, coord) + 1,
    decreases shape.len(),
{
    let k = shape.len() - 1;
    let after = coord_after(shape, coord, k);
    let s = shape.drop_last();
    let c = coord.drop_last();
    lemma_settle(shape, coord, k);
    if k == 0 || coord[k] + 1 < shape[k] {
        assert(after.drop_last() =~= c);
    } else {
        assert(s =~= shape.take(k));
        assert(c =~= coord.take(k));
        lemma_settle_prefix(shape, coord, k, k - 1);
        assert(after.drop_last() =~= coord_after(s, c, k - 1));
        lemma_rank_successor(s, c);
        let r = rank(s, c);
        let b = shape[k];
        let d = coord[k];
        assert((r + 1) * b + 0 == r * b + d + 1) by (nonlinear_arith)
            requires
                d + 1 == b,
        ;
    }
}

/// The rank of a coordinate is the rank of its first `m` positions times
/// the size of the subtree below them, plus the rank of the rest inside
/// that subtree.
pub proof fn lemma_rank_split(shape: Seq<int>, coord: Seq<int>, m: int)
    requires
        0 <= m <= shape.len(),
        coord.len() == shape.len(),
    ensures
        rank(shape, coord) == rank(shape.take(m), coord.take(m)) * volume(shape.skip(m)) + rank(
            shape.skip(m),
            coord.skip(m),
        ),
    decreases shape.len(),
{
    if m == shape.len() {
        assert(shape.take(m) =~= shape);
        assert(coord.take(m) =~= coord);
        let r = rank(shape, coord);
        assert(r * 1 + 0 == r) by (nonlinear_arith);
    } else {
        let s = shape.drop_last();
        let c = coord.drop_last();
        lemma_rank_split(s, c, m);
        assert(s.take(m) =~= shape.take(m));
        assert(c.take(m) =~= coord.take(m));
        assert(shape.skip(m).drop_last() =~= s.skip(m));
        assert(coord.skip(m).drop_last() =~= c.skip(m));
        let head = rank(shape.take(m), coord.take(m));
        let v = volume(s.skip(m));
        let t = rank(s.skip(m), c.skip(m));
        let b = shape.last();
        let d = coord.last();
        assert(shape.skip(m).last() == b);
        assert(coord.skip(m).last() == d);
        assert((head * v + t) * b + d == head * (v * b) + (t * b + d)) by (nonlinear_arith);
    }
}

/// An advance at position `k` leads to the first coordinate of the next
/// subtree below `k`: the rank of the positions down to `k` goes up by one,
/// and what the coordinate had reached inside its subtree is dropped.
pub proof fn lemma_rank_skip(shape: Seq<int>, coord: Seq<int>, k: int)
    requires
        sizes_ok(shape),
        placed(shape, coord),
        0 <= k < shape.len(),
    ensures
        ({
            let head = rank(shape.take(k + 1), coord.take(k + 1));
            let below = volume(shape.skip(k + 1));
            let tail = rank(shape.skip(k + 1), coord.skip(k + 1));
            &&& rank(shape, coord) == head * below + tail
            &&& 0 <= tail < below
            &&& rank(shape, coord_after(shape, coord, k)) == (head + 1) * below
        }),
{
    let after = coord_after(shape, coord, k);
    lemma_rank_split(shape, coord, k + 1);
    lemma_rank_split(shape, after, k + 1);
    lemma_settle(shape, coord, k);
    lemma_settle_prefix(shape, coord, k + 1, k);
    assert(after.take(k + 1) =~= coord_after(shape.take(k + 1), coord.take(k + 1), k));
    lemma_rank_successor(shape.take(k + 1), coord.take(k + 1));
    lemma_rank_zeros(shape.skip(k + 1), after.skip(k + 1));
    lemma_rank_bounds(shape.skip(k + 1), coord.skip(k + 1));
    if k + 1 < shape.len() {
        assert(coord.skip(k + 1)[0] == coord[k + 1]);
        assert(shape.skip(k + 1)[0] == shape[k + 1]);
    }
}

} // verus!
