//! The executable counter.

use crate::counter::{
    fresh,
    ints,
    lemma_fresh_wf,
    lemma_ints_injective,
    lemma_settle,
    lemma_step_wf,
    Counter,
};
use crate::sanitize::{keep_positive, register, zeros};
use vstd::prelude::*;

verus! {

/// A counter over the product of a list of dimensions.
///
/// It stands for a [`Counter`], its view, and each operation is specified as
/// a function on that value.
#[derive(Debug)]
pub struct IndexTree {
    index: Vec<usize>,
    dimen: Vec<usize>,
    skips: Vec<usize>,
    next: bool,
    good: bool,
}

impl View for IndexTree {
    type V = Counter;

    closed spec fn view(&self) -> Counter {
        Counter {
            shape: ints(self.dimen@),
            coord: ints(self.index@),
            skips: ints(self.skips@),
            valid: self.good,
            yielded: self.next,
        }
    }
}

impl Clone for IndexTree {
    /// A second counter in the same state.
    fn clone(&self) -> (copy: Self)
        ensures
            copy@ == self@,
    {
        let copy = IndexTree {
            index: self.index.clone(),
            dimen: self.dimen.clone(),
            skips: self.skips.clone(),
            next: self.next,
            good: self.good,
        };
        assert(copy.index@ =~= self.index@);
        assert(copy.dimen@ =~= self.dimen@);
        assert(copy.skips@ =~= self.skips@);
        copy
    }
}

impl PartialEq for IndexTree {
    /// Two counters are equal when they are in the same state: same shape,
    /// coordinate, skip depths and flags.
    fn eq(&self, other: &Self) -> (same: bool) {
        let same = self.index == other.index && self.dimen == other.dimen && self.skips
            == other.skips && self.next == other.next && self.good == other.good;
        proof {
            if self@ == other@ {
                lemma_ints_injective(self.index@, other.index@);
                lemma_ints_injective(self.dimen@, other.dimen@);
                lemma_ints_injective(self.skips@, other.skips@);
            }
            assert(self.index@ == other.index@ <==> self.index@ =~= other.index@);
            assert(self.dimen@ == other.dimen@ <==> self.dimen@ =~= other.dimen@);
            assert(self.skips@ == other.skips@ <==> self.skips@ =~= other.skips@);
        }
        same
    }
}

impl vstd::std_specs::cmp::PartialEqSpecImpl for IndexTree {
    open spec fn obeys_eq_spec() -> bool {
        true
    }

    open spec fn eq_spec(&self, other: &Self) -> bool {
        self@ == other@
    }
}

impl IndexTree {
    /// A counter at the all-zero coordinate of the space that the positive
    /// entries of `dimen` span. Of `skips`, the values that name a position
    /// of that space are registered, once each and in ascending order.
    pub fn new(dimen: &Vec<usize>, skips: &Vec<usize>) -> (tree: IndexTree)
        ensures
            tree@ == fresh(ints(dimen@), ints(skips@)),
            tree@.wf(),
    {
        let shape = keep_positive(dimen);
        let depths = register(skips, shape.len());
        let index = zeros(shape.len());
        proof {
            lemma_fresh_wf(ints(dimen@), ints(skips@));
            assert(ints(index@) =~= Seq::new(shape@.len(), |i: int| 0int));
        }
        IndexTree { index, dimen: shape, skips: depths, next: false, good: true }
    }

    /// Settles the coordinate after position `k` was raised by one: the
    /// positions below `k` start again at zero, and as long as the position
    /// at hand has reached the size of its dimension, that size is taken
    /// from it and the position above is raised by one. The counter is
    /// exhausted if the outermost position ends outside its dimension.
    fn fix(&mut self, k: usize, Ghost(pre): Ghost<Counter>) -> (r: Result<bool, ()>)
        requires
            pre.wf(),
            pre.has_room(),
            k < pre.shape.len(),
            old(self)@ == pre.raised(k as int),
        ensures
            final(self)@ == pre.step(k as int),
            r == pre.report(k as int),
    {
        assert(ints(self.index@).len() == ints(self.dimen@).len());
        assert forall|q: int| 0 <= q < self.index@.len() implies #[trigger] self.index@[q]
            == pre.raised(k as int).coord[q] by {
            assert(self.index@[q] == ints(self.index@)[q]);
        }
        self.next = false;
        let len = self.dimen.len();
        let mut i: usize = k + 1;
        while i < len
            invariant
                k < i <= len,
                len == self.dimen@.len(),
                len == self.index@.len(),
                pre.shape == ints(self.dimen@),
                pre.skips == ints(self.skips@),
                pre.valid == self.good,
                !self.next,
                forall|q: int| 0 <= q < k ==> self.index@[q] == pre.coord[q],
                self.index@[k as int] == pre.coord[k as int] + 1,
                forall|q: int| k < q < i ==> self.index@[q] == 0,
            decreases len - i,
        {
            self.index.set(i, 0);
            i += 1;
        }
        let mut p: usize = k;
        let mut carried = false;
        while p > 0 && self.index[p] >= self.dimen[p]
            invariant
                p <= k < len,
                len == self.dimen@.len(),
                len == self.index@.len(),
                pre.wf(),
                pre.has_room(),
                pre.shape == ints(self.dimen@),
                pre.skips == ints(self.skips@),
                pre.valid == self.good,
                !self.next,
                forall|q: int| 0 <= q < p ==> self.index@[q] == pre.coord[q],
                self.index@[p as int] == pre.coord[p as int] + 1,
                forall|q: int| p < q < len ==> self.index@[q] == 0,
                pre.settle(k as int) == pre.settle(p as int),
                carried == (p < k),
            decreases p,
        {
            carried = true;
            assert(self.index@[p - 1] == pre.coord[p - 1]);
            assert(pre.shape[p - 1] == self.dimen@[p - 1]);
            let above: usize = self.index[p - 1] + 1;
            self.index.set(p - 1, above);
            let rest: usize = self.index[p] - self.dimen[p];
            self.index.set(p, rest);
            p -= 1;
        }
        proof {
            assert(ints(self.index@) =~= pre.coord_after(k as int));
        }
        if self.index[0] >= self.dimen[0] {
            self.good = false;
            return Err(());
        }
        Ok(carried)
    }

    /// Whether the counter is still inside its space.
    pub fn check(&self) -> (valid: bool)
        ensures
            valid == self@.valid,
    {
        self.good
    }

    /// Whether the counter can take one more advance: always while it is
    /// valid, and after that until its outermost position has been driven to
    /// the largest integer.
    pub fn has_room(&self) -> (room: bool)
        requires
            self@.wf(),
        ensures
            room == self@.has_room(),
    {
        if self.good || self.dimen.len() == 0 {
            true
        } else {
            assert(self.index@[0] == ints(self.index@)[0]);
            self.index[0] < usize::MAX
        }
    }

    /// Advances at the depth that slot `skip` stands for: the registered
    /// depth number `skip`, counted from 1, and the innermost depth for 0
    /// and for every number from the count of registered depths on.
    pub fn inc_skip_v(&mut self, skip: usize) -> (r: Result<bool, ()>)
        requires
            old(self)@.wf(),
            old(self)@.has_room(),
        ensures
            final(self)@ == old(self)@.at_slot(skip as int),
            r == old(self)@.slot_report(skip as int),
            final(self)@.wf(),
            !old(self)@.valid ==> r is Err,
    {
        if skip >= self.skips.len() || skip == 0 {
            self.inc()
        } else {
            let depth: usize = self.skips[skip - 1];
            self.inc_skip(depth)
        }
    }

    /// Advances at depth `skip`: raises position `skip - 2` by one, starts
    /// every position below it again at zero and carries upward. A depth
    /// that names no position means the innermost one.
    ///
    /// Fails, leaving the counter exhausted, when this moves the coordinate
    /// out of the space. Otherwise reports whether the increment was carried
    /// into a position above the one it was aimed at.
    pub fn inc_skip(&mut self, skip: usize) -> (r: Result<bool, ()>)
        requires
            old(self)@.wf(),
            old(self)@.has_room(),
        ensures
            final(self)@ == old(self)@.at_depth(skip as int),
            r == old(self)@.depth_report(skip as int),
            final(self)@.wf(),
            !old(self)@.valid ==> r is Err,
    {
        let len = self.dimen.len();
        if len == 0 {
            self.next = false;
            self.good = false;
            return Err(());
        }
        let k: usize = if skip >= 2 && skip - 2 < len {
            skip - 2
        } else {
            len - 1
        };
        let ghost pre = self@;
        proof {
            lemma_step_wf(pre, k as int);
            lemma_settle(pre.shape, pre.coord, k as int);
        }
        assert(pre.shape[k as int] == self.dimen@[k as int]);
        let raised: usize = self.index[k] + 1;
        self.index.set(k, raised);
        assert(self@ == pre.raised(k as int)) by {
            assert(ints(self.index@) =~= pre.coord.update(k as int, pre.coord[k as int] + 1));
        }
        self.fix(k, Ghost(pre))
    }

    /// Advances at the innermost depth: moves to the next coordinate in
    /// row-major order.
    pub fn inc(&mut self) -> (r: Result<bool, ()>)
        requires
            old(self)@.wf(),
            old(self)@.has_room(),
        ensures
            final(self)@ == old(self)@.inc(),
            r == old(self)@.inc_report(),
            final(self)@.wf(),
            !old(self)@.valid ==> r is Err,
    {
        self.inc_skip(0)
    }

    /// Hands out the coordinates one after another: the current one on the
    /// first pull and after every advance made in between, and otherwise the
    /// one that an innermost advance leads to. Hands out nothing once the
    /// counter is exhausted.
    pub fn next(&mut self) -> (item: Option<Vec<usize>>)
        requires
            old(self)@.wf(),
            old(self)@.yielded ==> old(self)@.has_room(),
        ensures
            final(self)@ == old(self)@.pull(),
            final(self)@.wf(),
            !old(self)@.valid ==> item is None,
            match item {
                Some(coord) => old(self)@.pulled() == Some(ints(coord@)),
                None => old(self)@.pulled().is_none(),
            },
    {
        if self.next {
            let _ = self.inc();
        }
        self.next = true;
        if self.good {
            let coord = self.index.clone();
            assert(coord@ =~= self.index@);
            Some(coord)
        } else {
            None
        }
    }

    /// The current coordinate.
    pub fn get(&self) -> (coord: &Vec<usize>)
        ensures
            ints(coord@) == self@.coord,
    {
        &self.index
    }

    /// The size of each dimension.
    pub fn dimensions(&self) -> (shape: &Vec<usize>)
        ensures
            ints(shape@) == self@.shape,
    {
        &self.dimen
    }

    /// The registered skip depths, in slot order.
    pub fn skips(&self) -> (depths: &Vec<usize>)
        ensures
            ints(depths@) == self@.skips,
    {
        &self.skips
    }
}

} // verus!
