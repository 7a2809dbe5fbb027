//! The counter as a mathematical value, and its transitions.

use vstd::prelude::*;

verus! {

/// The machine integers of a sequence as mathematical integers.
pub open spec fn ints(s: Seq<usize>) -> Seq<int> {
    s.map_values(|v: usize| v as int)
}

/// Sequences of machine integers that agree as mathematical integers are
/// the same sequence.
pub proof fn lemma_ints_injective(a: Seq<usize>, b: Seq<usize>)
    requires
        ints(a) == ints(b),
    ensures
        a == b,
{
    assert(a.len() == ints(a).len());
    assert(b.len() == ints(b).len());
    assert forall|i: int| 0 <= i < a.len() implies a[i] == b[i] by {
        assert(ints(a)[i] == a[i]);
        assert(ints(b)[i] == b[i]);
    }
    assert(a =~= b);
}

/// The position at which a carry that starts at `k` comes to rest: the
/// nearest position at or above `k` that is not on its last element, or the
/// outermost position if there is none.
pub open spec fn settle(shape: Seq<int>, coord: Seq<int>, k: int) -> int
    decreases k,
{
    if k <= 0 || coord[k] + 1 < shape[k] {
        k
    } else {
        settle(shape, coord, k - 1)
    }
}

/// The coordinate after an advance at position `k`: what lies above the
/// settling position stays, the settling position goes up by one, and
/// everything below it starts again at zero.
pub open spec fn coord_after(shape: Seq<int>, coord: Seq<int>, k: int) -> Seq<int> {
    let j = settle(shape, coord, k);
    Seq::new(
        coord.len(),
        |i: int|
            if i < j {
                coord[i]
            } else if i == j {
                coord[i] + 1
            } else {
                0
            },
    )
}

/// Every size is at least one.
pub open spec fn sizes_ok(shape: Seq<int>) -> bool {
    forall|i: int| 0 <= i < shape.len() ==> #[trigger] shape[i] >= 1
}

/// `coord` has one entry per dimension of `shape`, none negative, and every
/// position but the outermost lies inside its dimension.
pub open spec fn placed(shape: Seq<int>, coord: Seq<int>) -> bool {
    &&& coord.len() == shape.len()
    &&& forall|i: int| 0 <= i < coord.len() ==> #[trigger] coord[i] >= 0
    &&& forall|i: int| 1 <= i < coord.len() ==> #[trigger] coord[i] < shape[i]
}

/// The state of a counter.
///
/// Position 0 of `shape` and `coord` is the outermost, slowest-varying
/// dimension; the last position is the innermost.
pub struct Counter {
    /// Size of each dimension.
    pub shape: Seq<int>,
    /// Current coordinate, one entry per dimension.
    pub coord: Seq<int>,
    /// Registered skip depths, ascending, addressed by slot number.
    pub skips: Seq<int>,
    /// False once an advance has moved past the last coordinate.
    pub valid: bool,
    /// True when a pull has handed out the current coordinate, so that the
    /// next pull has to advance first.
    pub yielded: bool,
}

impl Counter {
    /// Every dimension has at least one element.
    pub open spec fn shape_ok(self) -> bool {
        sizes_ok(self.shape)
    }

    /// The coordinate has one entry per dimension, none negative, and every
    /// position but the outermost lies inside its dimension.
    pub open spec fn coord_ok(self) -> bool {
        placed(self.shape, self.coord)
    }

    /// The registered depths ascend strictly and each names a position:
    /// depth `d` stands for position `d - 2`.
    pub open spec fn skips_ok(self) -> bool {
        &&& forall|i: int|
            0 <= i < self.skips.len() ==> 2 <= #[trigger] self.skips[i] <= self.shape.len() + 1
        &&& forall|i: int, j: int|
            0 <= i < j < self.skips.len() ==> self.skips[i] < self.skips[j]
    }

    /// Well-formedness. The outermost position is the one that may leave its
    /// dimension, and the counter is valid exactly while it has not.
    pub open spec fn wf(self) -> bool {
        &&& self.shape_ok()
        &&& self.coord_ok()
        &&& self.skips_ok()
        &&& self.shape.len() > 0 ==> (self.valid <==> self.coord[0] < self.shape[0])
    }

    /// The counter can take one more advance without its outermost position
    /// leaving the machine's integers. A valid counter always can: the
    /// position is still inside its dimension. An exhausted one can until
    /// further advances have driven the position to the largest integer.
    pub open spec fn has_room(self) -> bool {
        self.shape.len() > 0 && !self.valid ==> self.coord[0] < usize::MAX
    }

    /// The counter with position `k` raised by one and nothing else changed:
    /// the state between the increment and the carry.
    pub open spec fn raised(self, k: int) -> Counter {
        Counter { coord: self.coord.update(k, self.coord[k] + 1), ..self }
    }

    /// The position that an advance at `depth` raises: `depth - 2` for a
    /// depth from 2 to the number of dimensions plus 1, and the innermost
    /// position for every other depth.
    pub open spec fn target(self, depth: int) -> int {
        if 2 <= depth <= self.shape.len() + 1 {
            depth - 2
        } else {
            self.shape.len() - 1
        }
    }

    /// The position at which a carry that starts at `k` comes to rest.
    pub open spec fn settle(self, k: int) -> int {
        settle(self.shape, self.coord, k)
    }

    /// The coordinate after an advance at position `k`.
    pub open spec fn coord_after(self, k: int) -> Seq<int> {
        coord_after(self.shape, self.coord, k)
    }

    /// The counter after an advance at position `k`. A counter without
    /// dimensions has nowhere to go and is exhausted by any advance.
    pub open spec fn step(self, k: int) -> Counter {
        if self.shape.len() == 0 {
            Counter { valid: false, yielded: false, ..self }
        } else {
            let coord = self.coord_after(k);
            Counter { coord, valid: coord[0] < self.shape[0], yielded: false, ..self }
        }
    }

    /// What an advance at position `k` reports: failure if it leaves the
    /// counter exhausted, and otherwise whether the increment was carried
    /// into a position above `k`.
    pub open spec fn report(self, k: int) -> Result<bool, ()> {
        if self.step(k).valid {
            Ok(self.settle(k) < k)
        } else {
            Err(())
        }
    }

    /// The depth behind slot number `slot`. Slots count from 1 and the last
    /// registered depth has none; every other number stands for the
    /// innermost depth.
    pub open spec fn slot_depth(self, slot: int) -> int {
        if 1 <= slot < self.skips.len() {
            self.skips[slot - 1]
        } else {
            self.shape.len() as int + 1
        }
    }

    /// The counter after an advance at `depth`.
    pub open spec fn at_depth(self, depth: int) -> Counter {
        self.step(self.target(depth))
    }

    /// What an advance at `depth` reports.
    pub open spec fn depth_report(self, depth: int) -> Result<bool, ()> {
        self.report(self.target(depth))
    }

    /// The counter after an advance at the depth behind slot `slot`.
    pub open spec fn at_slot(self, slot: int) -> Counter {
        self.at_depth(self.slot_depth(slot))
    }

    /// What an advance at the depth behind slot `slot` reports.
    pub open spec fn slot_report(self, slot: int) -> Result<bool, ()> {
        self.depth_report(self.slot_depth(slot))
    }

    /// The counter after an innermost advance.
    pub open spec fn inc(self) -> Counter {
        self.step(self.shape.len() - 1)
    }

    /// What an innermost advance reports.
    pub open spec fn inc_report(self) -> Result<bool, ()> {
        self.report(self.shape.len() - 1)
    }

    /// The counter after a pull: it advances first if the current coordinate
    /// was handed out before, and marks the coordinate as handed out.
    pub open spec fn pull(self) -> Counter {
        let c = if self.yielded { self.inc() } else { self };
        Counter { yielded: true, ..c }
    }

    /// What a pull hands out: the coordinate that it arrives at, or nothing
    /// once the counter is exhausted.
    pub open spec fn pulled(self) -> Option<Seq<int>> {
        let c = self.pull();
        if c.valid {
            Some(c.coord)
        } else {
            None
        }
    }
}

/// The test that a dimension size passes to become part of the shape.
pub open spec fn is_positive() -> spec_fn(int) -> bool {
    |n: int| n > 0
}

/// The test that a depth passes to be registered: it is among the candidates.
pub open spec fn is_among(candidates: Seq<int>) -> spec_fn(int) -> bool {
    |d: int| candidates.contains(d)
}

/// The shape that a list of sizes gives: its positive entries, in order.
pub open spec fn positive(sizes: Seq<int>) -> Seq<int> {
    sizes.filter(is_positive())
}

/// The depths of a counter with `len` dimensions, in ascending order: 2 for
/// the outermost position up to `len + 1` for the innermost.
pub open spec fn depths(len: int) -> Seq<int> {
    Seq::new(len as nat, |i: int| i + 2)
}

/// The skip depths that a list of candidates registers on a counter with
/// `len` dimensions: each depth that occurs among the candidates, once, in
/// ascending order.
pub open spec fn registered(candidates: Seq<int>, len: int) -> Seq<int> {
    depths(len).filter(is_among(candidates))
}

/// The counter that a list of sizes and a list of skip candidates start: at
/// the all-zero coordinate, valid, with nothing handed out yet.
pub open spec fn fresh(sizes: Seq<int>, candidates: Seq<int>) -> Counter {
    let shape = positive(sizes);
    Counter {
        shape,
        coord: Seq::new(shape.len(), |i: int| 0int),
        skips: registered(candidates, shape.len() as int),
        valid: true,
        yielded: false,
    }
}

/// One more size at the end adds itself to the shape if it is positive and
/// nothing otherwise.
pub proof fn lemma_positive_push(sizes: Seq<int>, n: int)
    ensures
        positive(sizes.push(n)) == if n > 0 {
            positive(sizes).push(n)
        } else {
            positive(sizes)
        },
{
    sizes.lemma_filter_push(n, is_positive());
}

/// One more dimension registers its own depth if that is among the
/// candidates and changes nothing else.
pub proof fn lemma_registered_next(candidates: Seq<int>, len: int)
    requires
        0 <= len,
    ensures
        registered(candidates, len + 1) == if candidates.contains(len + 2) {
            registered(candidates, len).push(len + 2)
        } else {
            registered(candidates, len)
        },
{
    assert(depths(len + 1) =~= depths(len).push(len + 2));
    depths(len).lemma_filter_push(len + 2, is_among(candidates));
}

/// What is registered: exactly the candidates that name a position, each
/// once, in strictly ascending order.
pub proof fn lemma_registered(candidates: Seq<int>, len: int)
    requires
        0 <= len,
    ensures
        forall|i: int|
            0 <= i < registered(candidates, len).len() ==> {
                &&& 2 <= #[trigger] registered(candidates, len)[i] <= len + 1
                &&& candidates.contains(registered(candidates, len)[i])
            },
        forall|i: int, j: int|
            0 <= i < j < registered(candidates, len).len() ==> registered(candidates, len)[i]
                < registered(candidates, len)[j],
        forall|d: int|
            2 <= d <= len + 1 && candidates.contains(d) ==> registered(candidates, len).contains(d),
    decreases len,
{
    if len == 0 {
        assert(depths(0) =~= Seq::<int>::empty());
        reveal(Seq::filter);
    } else {
        lemma_registered(candidates, len - 1);
        lemma_registered_next(candidates, len - 1);
        let before = registered(candidates, len - 1);
        let after = registered(candidates, len);
        assert forall|d: int| 2 <= d <= len + 1 && candidates.contains(d) implies after.contains(
            d,
        ) by {
            if d == len + 1 {
                assert(after[after.len() - 1] == d);
            } else {
                let i = choose|i: int| 0 <= i < before.len() && before[i] == d;
                assert(after[i] == d);
            }
        }
    }
}

/// A fresh counter is well-formed.
pub proof fn lemma_fresh_wf(sizes: Seq<int>, candidates: Seq<int>)
    ensures
        fresh(sizes, candidates).wf(),
{
    let c = fresh(sizes, candidates);
    assert forall|i: int| 0 <= i < c.shape.len() implies #[trigger] c.shape[i] >= 1 by {
        sizes.lemma_filter_pred(is_positive(), i);
    }
    lemma_registered(candidates, c.shape.len() as int);
}

/// The settling position lies between the outermost position and the start
/// of the carry. Unless it is the outermost, it is not on its last element;
/// every position between it and the start is.
pub proof fn lemma_settle(shape: Seq<int>, coord: Seq<int>, k: int)
    requires
        0 <= k,
    ensures
        0 <= settle(shape, coord, k) <= k,
        settle(shape, coord, k) > 0 ==> coord[settle(shape, coord, k)] + 1 < shape[settle(
            shape,
            coord,
            k,
        )],
        forall|i: int| settle(shape, coord, k) < i <= k ==> coord[i] + 1 >= shape[i],
    decreases k,
{
    if k > 0 && coord[k] + 1 >= shape[k] {
        lemma_settle(shape, coord, k - 1);
    }
}

/// An advance keeps a well-formed counter well-formed, whatever position it
/// starts at.
pub proof fn lemma_step_wf(c: Counter, k: int)
    requires
        c.wf(),
        c.shape.len() > 0 ==> 0 <= k < c.shape.len(),
    ensures
        c.step(k).wf(),
        c.step(k).shape == c.shape,
        c.step(k).skips == c.skips,
{
    if c.shape.len() > 0 {
        lemma_settle(c.shape, c.coord, k);
    }
}

} // verus!
