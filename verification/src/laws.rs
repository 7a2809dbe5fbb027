//! What holds of whole runs of a counter.

use crate::counter::{fresh, lemma_fresh_wf, lemma_settle, lemma_step_wf, Counter};
use crate::ordinal::{
    lemma_rank_bounds,
    lemma_rank_skip,
    lemma_rank_successor,
    lemma_rank_zeros,
    rank,
    volume,
};
use crate::tree::IndexTree;
use vstd::prelude::*;
use vstd::std_specs::cmp::PartialEqSpec;

verus! {

/// One call on a counter.
pub enum Call {
    /// An innermost advance.
    Inc,
    /// An advance at a depth.
    Depth(int),
    /// An advance at the depth behind a slot.
    Slot(int),
    /// A pull of the next coordinate.
    Pull,
}

/// The counter after one call.
pub open spec fn apply(c: Counter, call: Call) -> Counter {
    match call {
        Call::Inc => c.inc(),
        Call::Depth(depth) => c.at_depth(depth),
        Call::Slot(slot) => c.at_slot(slot),
        Call::Pull => c.pull(),
    }
}

/// The counter after a sequence of calls, made in order.
pub open spec fn run(c: Counter, calls: Seq<Call>) -> Counter
    decreases calls.len(),
{
    if calls.len() == 0 {
        c
    } else {
        apply(run(c, calls.drop_last()), calls.last())
    }
}

/// The counter after `n` innermost advances.
pub open spec fn incs(c: Counter, n: nat) -> Counter
    decreases n,
{
    if n == 0 {
        c
    } else {
        incs(c, (n - 1) as nat).inc()
    }
}

/// The counter after `n` pulls.
pub open spec fn pulls(c: Counter, n: nat) -> Counter
    decreases n,
{
    if n == 0 {
        c
    } else {
        pulls(c, (n - 1) as nat).pull()
    }
}

/// Every call keeps a well-formed counter well-formed and leaves its shape
/// and its skip depths as they are.
pub proof fn lemma_apply_wf(c: Counter, call: Call)
    requires
        c.wf(),
    ensures
        apply(c, call).wf(),
        apply(c, call).shape == c.shape,
        apply(c, call).skips == c.skips,
{
    lemma_step_wf(c, c.shape.len() - 1);
    match call {
        Call::Inc => {},
        Call::Depth(depth) => {
            lemma_step_wf(c, c.target(depth));
        },
        Call::Slot(slot) => {
            lemma_step_wf(c, c.target(c.slot_depth(slot)));
        },
        Call::Pull => {},
    }
}

/// Exhaustion is final: no call makes an exhausted counter valid again.
pub proof fn lemma_exhaustion_is_final(c: Counter, call: Call)
    requires
        c.wf(),
        !c.valid,
    ensures
        !apply(c, call).valid,
{
    if c.shape.len() > 0 {
        lemma_settle(c.shape, c.coord, c.shape.len() - 1);
        match call {
            Call::Inc => {},
            Call::Depth(depth) => {
                lemma_settle(c.shape, c.coord, c.target(depth));
            },
            Call::Slot(slot) => {
                lemma_settle(c.shape, c.coord, c.target(c.slot_depth(slot)));
            },
            Call::Pull => {},
        }
    }
}

/// An advance on an exhausted counter fails, at whatever depth or slot.
pub proof fn lemma_exhausted_advance_fails(c: Counter, depth: int, slot: int)
    requires
        c.wf(),
        !c.valid,
    ensures
        c.inc_report() is Err,
        c.depth_report(depth) is Err,
        c.slot_report(slot) is Err,
{
    lemma_exhaustion_is_final(c, Call::Inc);
    lemma_exhaustion_is_final(c, Call::Depth(depth));
    lemma_exhaustion_is_final(c, Call::Slot(slot));
}

/// No sequence of calls makes an exhausted counter valid again.
pub proof fn lemma_exhaustion_outlasts_run(c: Counter, calls: Seq<Call>)
    requires
        c.wf(),
        !c.valid,
    ensures
        run(c, calls).wf(),
        !run(c, calls).valid,
    decreases calls.len(),
{
    if calls.len() > 0 {
        lemma_exhaustion_outlasts_run(c, calls.drop_last());
        lemma_apply_wf(run(c, calls.drop_last()), calls.last());
        lemma_exhaustion_is_final(run(c, calls.drop_last()), calls.last());
    }
}

/// Slot 0 and every slot from the number of registered depths on stand for
/// the innermost advance.
pub proof fn lemma_unregistered_slot_is_inc(c: Counter, slot: int)
    requires
        slot <= 0 || slot >= c.skips.len(),
    ensures
        c.at_slot(slot) == c.inc(),
        c.slot_report(slot) == c.inc_report(),
{
}

/// A registered slot advances at the depth that is stored for it.
pub proof fn lemma_registered_slot_is_depth(c: Counter, slot: int)
    requires
        1 <= slot < c.skips.len(),
    ensures
        c.at_slot(slot) == c.at_depth(c.skips[slot - 1]),
        c.slot_report(slot) == c.depth_report(c.skips[slot - 1]),
{
}

/// A depth that names no position stands for the innermost advance.
pub proof fn lemma_unknown_depth_is_inc(c: Counter, depth: int)
    requires
        depth < 2 || depth > c.shape.len() + 1,
    ensures
        c.at_depth(depth) == c.inc(),
        c.depth_report(depth) == c.inc_report(),
{
}

/// An innermost advance that succeeds reports a carry exactly when it takes
/// the innermost position off its last element, in a space of at least two
/// dimensions.
pub proof fn lemma_inc_reports_carry(c: Counter)
    requires
        c.wf(),
        c.shape.len() > 0,
    ensures
        c.inc_report() == if c.inc().valid {
            Ok::<bool, ()>(c.shape.len() >= 2 && c.coord.last() + 1 == c.shape.last())
        } else {
            Err(())
        },
        c.inc().valid ==> (c.inc_report() == Ok::<bool, ()>(true) <==> c.shape.len() >= 2
            && c.inc().coord.last() == 0),
{
    let k = c.shape.len() - 1;
    lemma_settle(c.shape, c.coord, k);
    if k > 0 && c.coord[k] + 1 >= c.shape[k] {
        lemma_settle(c.shape, c.coord, k - 1);
    }
}

/// An advance at a depth that names a position leaves every position below
/// it at zero.
pub proof fn lemma_depth_resets_below(c: Counter, depth: int)
    requires
        c.wf(),
        2 <= depth <= c.shape.len() + 1,
    ensures
        forall|i: int| depth - 2 < i < c.shape.len() ==> c.at_depth(depth).coord[i] == 0,
{
    lemma_settle(c.shape, c.coord, depth - 2);
}

/// A counter is valid exactly while the rank of its coordinate is below the
/// size of its space.
pub proof fn lemma_valid_is_inside(c: Counter)
    requires
        c.wf(),
        c.shape.len() > 0,
    ensures
        c.valid <==> rank(c.shape, c.coord) < volume(c.shape),
        0 <= rank(c.shape, c.coord),
{
    lemma_rank_bounds(c.shape, c.coord);
}

/// An innermost advance moves to the next coordinate in row-major order.
pub proof fn lemma_inc_is_successor(c: Counter)
    requires
        c.wf(),
        c.shape.len() > 0,
    ensures
        rank(c.shape, c.inc().coord) == rank(c.shape, c.coord) + 1,
{
    lemma_rank_successor(c.shape, c.coord);
}

/// An advance at a depth moves to the first coordinate of the next subtree
/// at that depth. With `k` the position that the depth names, `head` the
/// rank of the positions down to `k` and `below` the number of coordinates
/// in the subtree under `k`, the counter goes from somewhere in subtree
/// number `head` to the start of subtree number `head + 1`.
pub proof fn lemma_depth_skips_subtree(c: Counter, depth: int)
    requires
        c.wf(),
        c.shape.len() > 0,
    ensures
        ({
            let k = c.target(depth);
            let head = rank(c.shape.take(k + 1), c.coord.take(k + 1));
            let below = volume(c.shape.skip(k + 1));
            &&& head * below <= rank(c.shape, c.coord) < (head + 1) * below
            &&& rank(c.shape, c.at_depth(depth).coord) == (head + 1) * below
        }),
{
    let k = c.target(depth);
    lemma_rank_skip(c.shape, c.coord, k);
    let head = rank(c.shape.take(k + 1), c.coord.take(k + 1));
    let below = volume(c.shape.skip(k + 1));
    assert((head + 1) * below == head * below + below) by (nonlinear_arith);
}

/// After `n` innermost advances a counter is `n` places further on in
/// row-major order.
pub proof fn lemma_incs(c: Counter, n: nat)
    requires
        c.wf(),
    ensures
        incs(c, n).wf(),
        incs(c, n).shape == c.shape,
        incs(c, n).skips == c.skips,
        c.shape.len() > 0 ==> rank(c.shape, incs(c, n).coord) == rank(c.shape, c.coord) + n,
        c.shape.len() == 0 && n > 0 ==> !incs(c, n).valid,
    decreases n,
{
    if n > 0 {
        let before = incs(c, (n - 1) as nat);
        lemma_incs(c, (n - 1) as nat);
        lemma_step_wf(before, before.shape.len() - 1);
        if c.shape.len() > 0 {
            lemma_inc_is_successor(before);
        }
    }
}

/// Innermost advances walk the whole space: a fresh counter that has been
/// advanced `n` times is valid exactly while `n` is below the product of
/// the sizes of its dimensions, and its coordinate is the one of rank `n`.
/// So the coordinates visited before exhaustion are as many as the space
/// holds.
pub proof fn lemma_exhaustive_walk(sizes: Seq<int>, candidates: Seq<int>, n: nat)
    ensures
        ({
            let start = fresh(sizes, candidates);
            &&& incs(start, n).valid <==> n < volume(start.shape)
            &&& start.shape.len() > 0 ==> rank(start.shape, incs(start, n).coord) == n
            &&& n > 0 ==> (incs(start, (n - 1) as nat).inc_report() is Err <==> n >= volume(
                start.shape,
            ))
        }),
{
    let start = fresh(sizes, candidates);
    lemma_fresh_wf(sizes, candidates);
    lemma_incs(start, n);
    if start.shape.len() > 0 {
        lemma_rank_zeros(start.shape, start.coord);
        lemma_valid_is_inside(incs(start, n));
    } else {
        assert(volume(start.shape) == 1);
    }
}

/// The coordinates that innermost advances visit before exhaustion differ
/// from one another.
pub proof fn lemma_walk_is_injective(sizes: Seq<int>, candidates: Seq<int>, m: nat, n: nat)
    requires
        m < n < volume(fresh(sizes, candidates).shape),
    ensures
        incs(fresh(sizes, candidates), m).coord != incs(fresh(sizes, candidates), n).coord,
{
    let start = fresh(sizes, candidates);
    lemma_exhaustive_walk(sizes, candidates, m);
    lemma_exhaustive_walk(sizes, candidates, n);
    if start.shape.len() == 0 {
        assert(volume(start.shape) == 1);
    }
}

/// Pulling is driving by hand: on a counter whose coordinate has not been
/// handed out, pull number `n + 1` arrives where `n` innermost advances
/// lead, and hands out the coordinate found there, or nothing if the
/// counter is exhausted by then.
pub proof fn lemma_pulls_follow_incs(c: Counter, n: nat)
    requires
        !c.yielded,
    ensures
        pulls(c, n + 1) == (Counter { yielded: true, ..incs(c, n) }),
        pulls(c, n).pulled() == if incs(c, n).valid {
            Some(incs(c, n).coord)
        } else {
            None
        },
    decreases n,
{
    if n > 0 {
        lemma_pulls_follow_incs(c, (n - 1) as nat);
    }
}

/// The same calls on equal counters lead to equal counters: two counters
/// made from the same sizes and candidates and driven through the same
/// sequence of calls are in the same state, and `==` finds them equal.
pub proof fn lemma_same_calls_same_state(
    sizes: Seq<int>,
    candidates: Seq<int>,
    calls: Seq<Call>,
    a: IndexTree,
    b: IndexTree,
)
    requires
        a@ == run(fresh(sizes, candidates), calls),
        b@ == run(fresh(sizes, candidates), calls),
    ensures
        a@ == b@,
        a.eq_spec(&b),
{
}

} // verus!
