use vstd::prelude::*;

use crate::error::Error;
use crate::greedy::{initial_leaves, leaves_of};
use crate::segmentation::{segment_start, valid_breakpoints};

verus! {

/// Number of `false` entries of `s`.
pub open spec fn inactive_count(s: Seq<bool>) -> int
    decreases s.len(),
{
    if s.len() == 0 {
        0
    } else {
        inactive_count(s.drop_last()) + if s.last() {
            0int
        } else {
            1int
        }
    }
}

proof fn lemma_inactive_count_bounds(s: Seq<bool>)
    ensures
        0 <= inactive_count(s) <= s.len(),
    decreases s.len(),
{
    if s.len() > 0 {
        lemma_inactive_count_bounds(s.drop_last());
    }
}

proof fn lemma_inactive_count_prefix(s: Seq<bool>, k: int)
    requires
        0 <= k < s.len(),
    ensures
        inactive_count(s.subrange(0, k + 1)) == inactive_count(s.subrange(0, k)) + if s[k] {
            0int
        } else {
            1int
        },
{
    assert(s.subrange(0, k + 1).drop_last() =~= s.subrange(0, k));
}

proof fn lemma_inactive_count_clear(s: Seq<bool>, i: int)
    requires
        0 <= i < s.len(),
        s[i],
    ensures
        inactive_count(s.update(i, false)) == inactive_count(s) + 1,
    decreases s.len(),
{
    let t = s.update(i, false);
    if i == s.len() - 1 {
        assert(t.drop_last() =~= s.drop_last());
    } else {
        lemma_inactive_count_clear(s.drop_last(), i);
        assert(t.drop_last() =~= s.drop_last().update(i, false));
    }
}

proof fn lemma_inactive_count_two_active(s: Seq<bool>, a: int, b: int)
    requires
        0 <= a < b < s.len(),
        s[a],
        s[b],
    ensures
        inactive_count(s) <= s.len() - 2,
    decreases s.len(),
{
    if b == s.len() - 1 {
        assert(s.drop_last()[a]);
        lemma_inactive_count_one_active(s.drop_last(), a);
    } else {
        lemma_inactive_count_two_active(s.drop_last(), a, b);
    }
}

proof fn lemma_inactive_count_one_active(s: Seq<bool>, a: int)
    requires
        0 <= a < s.len(),
        s[a],
    ensures
        inactive_count(s) <= s.len() - 1,
    decreases s.len(),
{
    if a == s.len() - 1 {
        lemma_inactive_count_bounds(s.drop_last());
    } else {
        lemma_inactive_count_one_active(s.drop_last(), a);
    }
}

/// The segments of bottom-up segmentation as a doubly linked chain over the
/// initial leaves. Merging a segment with its right neighbour extends the
/// left one and retires the right one; the active segments, in index order,
/// always cover the signal contiguously.
#[derive(Clone, Debug)]
pub struct MergeChain {
    n_samples: usize,
    min_size: usize,
    starts: Vec<usize>,
    ends: Vec<usize>,
    prev: Vec<Option<usize>>,
    next: Vec<Option<usize>>,
    generation: Vec<u64>,
    active: Vec<bool>,
    merges: usize,
}

impl MergeChain {
    pub closed spec fn len(self) -> int {
        self.starts@.len() as int
    }

    pub closed spec fn spec_n_samples(self) -> usize {
        self.n_samples
    }

    pub closed spec fn spec_min_size(self) -> usize {
        self.min_size
    }

    pub closed spec fn spec_start(self, i: int) -> usize {
        self.starts@[i]
    }

    pub closed spec fn spec_end(self, i: int) -> usize {
        self.ends@[i]
    }

    pub closed spec fn spec_next(self, i: int) -> Option<usize> {
        self.next@[i]
    }

    pub closed spec fn spec_generation(self, i: int) -> u64 {
        self.generation@[i]
    }

    pub closed spec fn is_active(self, i: int) -> bool {
        self.active@[i]
    }

    /// The ends of the active segments among the first `k` nodes, in index
    /// order.
    pub open spec fn active_ends(self, k: int) -> Seq<usize>
        decreases k,
    {
        if k <= 0 {
            Seq::empty()
        } else if self.is_active(k - 1) {
            self.active_ends(k - 1).push(self.spec_end(k - 1))
        } else {
            self.active_ends(k - 1)
        }
    }

    /// Number of active segments.
    pub closed spec fn segment_count(self) -> int {
        self.len() - inactive_count(self.active@)
    }

    /// Node `i`, when active, is at least `min_size` long and linked to its
    /// active neighbours, with nothing active in between.
    pub closed spec fn link_ok(self, i: int) -> bool {
        self.active@[i] ==> {
            &&& self.starts@[i] + self.min_size <= self.ends@[i]
            &&& self.ends@[i] <= self.n_samples
            &&& match self.next@[i] {
                Some(j) => {
                    &&& i < j < self.len()
                    &&& self.active@[j as int]
                    &&& self.ends@[i] == self.starts@[j as int]
                    &&& self.prev@[j as int] == Some(i as usize)
                    &&& forall|k: int| i < k < j ==> !#[trigger] self.active@[k]
                },
                None => {
                    &&& self.ends@[i] == self.n_samples
                    &&& forall|k: int| i < k < self.len() ==> !#[trigger] self.active@[k]
                },
            }
            &&& match self.prev@[i] {
                Some(h) => h < i && self.active@[h as int] && self.next@[h as int] == Some(
                    i as usize,
                ),
                None => i == 0,
            }
        }
    }

    pub closed spec fn wf(self) -> bool {
        &&& self.len() >= 1
        &&& self.ends@.len() == self.len()
        &&& self.prev@.len() == self.len()
        &&& self.next@.len() == self.len()
        &&& self.generation@.len() == self.len()
        &&& self.active@.len() == self.len()
        &&& self.active@[0]
        &&& self.starts@[0] == 0
        &&& self.merges == inactive_count(self.active@)
        &&& forall|i: int| 0 <= i < self.len() ==> #[trigger] self.generation@[i] <= self.merges
        &&& forall|i: int| 0 <= i < self.len() ==> #[trigger] self.link_ok(i)
    }

    /// The chain of the finest segments that bottom-up segmentation starts
    /// from.
    pub fn new(n_samples: usize, min_size: usize, jump: usize) -> (r: Self)
        requires
            jump > 0,
            min_size > 0,
            n_samples >= min_size,
        ensures
            r.wf(),
            r.spec_n_samples() == n_samples,
            r.spec_min_size() == min_size,
            r.segment_count() == r.len(),
            r.len() == leaves_of(0, n_samples as int, min_size as int, jump as int).len(),
            forall|i: int|
                0 <= i < r.len() ==> {
                    let leaf = leaves_of(0, n_samples as int, min_size as int, jump as int)[i];
                    &&& #[trigger] r.spec_start(i) == leaf.0
                    &&& r.spec_end(i) == leaf.1
                    &&& r.is_active(i)
                    &&& r.spec_generation(i) == 0
                    &&& r.spec_next(i) == if i + 1 < r.len() {
                        Some((i + 1) as usize)
                    } else {
                        None
                    }
                },
    {
        let leaves = initial_leaves(n_samples, min_size, jump);
        let count = leaves.len();
        let mut starts: Vec<usize> = Vec::new();
        let mut ends: Vec<usize> = Vec::new();
        let mut prev: Vec<Option<usize>> = Vec::new();
        let mut next: Vec<Option<usize>> = Vec::new();
        let mut generation: Vec<u64> = Vec::new();
        let mut active: Vec<bool> = Vec::new();
        let mut index: usize = 0;
        while index < count
            invariant
                count == leaves@.len(),
                index <= count,
                starts@.len() == index,
                ends@.len() == index,
                prev@.len() == index,
                next@.len() == index,
                generation@.len() == index,
                active@.len() == index,
                forall|i: int| 0 <= i < index ==> #[trigger] starts@[i] == leaves@[i].0,
                forall|i: int| 0 <= i < index ==> #[trigger] ends@[i] == leaves@[i].1,
                forall|i: int|
                    0 <= i < index ==> #[trigger] prev@[i] == (if i == 0 {
                        None
                    } else {
                        Some((i - 1) as usize)
                    }),
                forall|i: int|
                    0 <= i < index ==> #[trigger] next@[i] == (if i + 1 < count {
                        Some((i + 1) as usize)
                    } else {
                        None
                    }),
                forall|i: int| 0 <= i < index ==> #[trigger] generation@[i] == 0,
                forall|i: int| 0 <= i < index ==> #[trigger] active@[i],
            decreases count - index,
        {
            let (start, end) = leaves[index];
            starts.push(start);
            ends.push(end);
            prev.push(if index == 0 { None } else { Some(index - 1) });
            next.push(if index + 1 < count { Some(index + 1) } else { None });
            generation.push(0);
            active.push(true);
            index = index + 1;
        }
        let chain = MergeChain {
            n_samples,
            min_size,
            starts,
            ends,
            prev,
            next,
            generation,
            active,
            merges: 0,
        };
        proof {
            assert(chain.active@ =~= Seq::new(count as nat, |i: int| true));
            lemma_all_active_count(count as nat);
            lemma_leaf_cover_bounded(leaves@, 0, n_samples as int, 0);
            assert forall|i: int| 0 <= i < count implies #[trigger] chain.link_ok(i) by {
                assert(chain.starts@[i] == leaves@[i].0);
                if i + 1 < count {
                    assert(chain.starts@[i + 1] == leaves@[i + 1].0);
                }
                if i > 0 {
                    assert(chain.starts@[i - 1] == leaves@[i - 1].0);
                }
            }
        }
        chain
    }

    pub fn len_exec(&self) -> (r: usize)
        ensures
            r == self.len(),
    {
        self.starts.len()
    }

    pub fn start(&self, i: usize) -> (r: usize)
        requires
            i < self.len(),
        ensures
            r == self.spec_start(i as int),
    {
        self.starts[i]
    }

    pub fn end(&self, i: usize) -> (r: usize)
        requires
            self.wf(),
            i < self.len(),
        ensures
            r == self.spec_end(i as int),
    {
        self.ends[i]
    }

    pub fn generation(&self, i: usize) -> (r: u64)
        requires
            self.wf(),
            i < self.len(),
        ensures
            r == self.spec_generation(i as int),
    {
        self.generation[i]
    }

    /// The active neighbour that follows the active segment `left`.
    pub fn right_neighbor(&self, left: usize) -> (r: Option<usize>)
        requires
            self.wf(),
        ensures
            match r {
                Some(right) => left < right < self.len() && self.is_active(left as int)
                    && self.is_active(right as int) && self.spec_next(left as int) == Some(right)
                    && self.spec_end(left as int) == self.spec_start(right as int),
                None => left >= self.len() || !self.is_active(left as int) || self.spec_next(
                    left as int,
                ) is None,
            },
    {
        if left >= self.starts.len() || !self.active[left] {
            return None;
        }
        proof {
            assert(self.link_ok(left as int));
        }
        self.next[left]
    }

    /// The active neighbour that precedes the active segment `right`.
    pub fn left_neighbor(&self, right: usize) -> (r: Option<usize>)
        requires
            self.wf(),
        ensures
            match r {
                Some(left) => left < right < self.len() && self.is_active(left as int)
                    && self.is_active(right as int) && self.spec_next(left as int) == Some(right),
                None => right >= self.len() || !self.is_active(right as int) || right == 0,
            },
    {
        if right >= self.starts.len() || !self.active[right] {
            return None;
        }
        proof {
            assert(self.link_ok(right as int));
        }
        self.prev[right]
    }

    /// Whether a merge of `left` and `right` proposed when their generations
    /// were `left_generation` and `right_generation` is still current.
    pub fn is_current(&self, left: usize, right: usize, left_generation: u64, right_generation: u64) -> (r:
        bool)
        requires
            self.wf(),
        ensures
            r == (left < self.len() && right < self.len() && self.is_active(left as int)
                && self.is_active(right as int) && self.spec_next(left as int) == Some(right)
                && self.spec_generation(left as int) == left_generation && self.spec_generation(
                right as int,
            ) == right_generation),
    {
        if left >= self.starts.len() || right >= self.starts.len() {
            return false;
        }
        self.active[left] && self.active[right] && self.next[left] == Some(right)
            && self.generation[left] == left_generation && self.generation[right]
            == right_generation
    }

    /// Merges the active segment `left` with its right neighbour `right`.
    pub fn merge(&mut self, left: usize, right: usize) -> (r: Result<(), Error>)
        requires
            old(self).wf(),
        ensures
            final(self).wf(),
            r is Ok <==> (left < old(self).len() && old(self).is_active(left as int) && old(
                self,
            ).spec_next(left as int) == Some(right)),
            r is Err ==> *final(self) == *old(self) && r == Err::<(), Error>(
                Error::NumericalFailure { context: "merging bottom-up segments" },
            ),
            r is Ok ==> {
                &&& final(self).len() == old(self).len()
                &&& final(self).spec_n_samples() == old(self).spec_n_samples()
                &&& final(self).spec_min_size() == old(self).spec_min_size()
                &&& final(self).segment_count() == old(self).segment_count() - 1
                &&& final(self).spec_start(left as int) == old(self).spec_start(left as int)
                &&& final(self).spec_end(left as int) == old(self).spec_end(right as int)
                &&& final(self).is_active(left as int)
                &&& !final(self).is_active(right as int)
                &&& final(self).spec_next(left as int) == old(self).spec_next(right as int)
                &&& forall|i: int|
                    0 <= i < final(self).len() && i != right ==> #[trigger] final(self).is_active(i)
                        == old(self).is_active(i)
                &&& final(self).spec_generation(left as int) == old(self).spec_generation(
                    left as int,
                ) + 1
                &&& final(self).spec_generation(right as int) == old(self).spec_generation(
                    right as int,
                ) + 1
                &&& forall|i: int|
                    0 <= i < final(self).len() && i != left && i != right
                        ==> #[trigger] final(self).spec_generation(i)
                        == old(self).spec_generation(i)
                &&& forall|i: int|
                    0 <= i < final(self).len() ==> #[trigger] final(self).spec_start(i)
                        == old(self).spec_start(i)
                &&& forall|i: int|
                    0 <= i < final(self).len() && i != left ==> #[trigger] final(self).spec_end(i)
                        == old(self).spec_end(i)
                &&& forall|i: int|
                    0 <= i < final(self).len() && i != left ==> #[trigger] final(self).spec_next(i)
                        == old(self).spec_next(i)
            },
    {
        if left >= self.starts.len() || !self.active[left] || self.next[left] != Some(right) {
            return Err(Error::NumericalFailure { context: "merging bottom-up segments" });
        }
        let ghost old_self = *self;
        proof {
            assert(self.link_ok(left as int));
            assert(self.link_ok(right as int));
            lemma_inactive_count_two_active(self.active@, left as int, right as int);
            lemma_inactive_count_clear(self.active@, right as int);
            lemma_inactive_count_bounds(self.active@);
        }
        let right_next = self.next[right];
        let right_end = self.ends[right];
        let left_generation = self.generation[left];
        let right_generation = self.generation[right];
        self.ends.set(left, right_end);
        self.next.set(left, right_next);
        self.generation.set(left, left_generation + 1);
        self.active.set(right, false);
        self.generation.set(right, right_generation + 1);
        match right_next {
            Some(after) => {
                proof {
                    assert(self.prev@.len() == old_self.len());
                }
                self.prev.set(after, Some(left));
            },
            None => {},
        }
        self.merges = self.merges + 1;
        proof {
            let o = old_self;
            let l = left as int;
            let rr = right as int;
            assert forall|i: int| 0 <= i < self.len() implies #[trigger] self.generation@[i]
                <= self.merges by {
                assert(o.generation@[i] <= o.merges);
            }
            assert forall|i: int| 0 <= i < self.len() implies #[trigger] self.link_ok(i) by {
                assert(o.link_ok(i));
                if i == l {
                    match o.prev@[l] {
                        Some(h) => {
                            assert(o.link_ok(h as int));
                        },
                        None => {},
                    }
                    match right_next {
                        Some(x) => {
                            assert(o.link_ok(x as int));
                            assert forall|k: int| l < k < x implies !#[trigger] self.active@[k] by {
                                if k < rr {
                                    assert(!o.active@[k]);
                                } else if k > rr {
                                    assert(!o.active@[k]);
                                }
                            }
                        },
                        None => {
                            assert forall|k: int| l < k < self.len() implies !#[trigger] self.active@[
                                k
                            ] by {
                                if k < rr {
                                    assert(!o.active@[k]);
                                } else if k > rr {
                                    assert(!o.active@[k]);
                                }
                            }
                        },
                    }
                } else if i != rr && o.active@[i] {
                    match o.next@[i] {
                        Some(j) => {
                            assert(o.link_ok(j as int));
                            if j as int == rr {
                                assert(o.prev@[rr] == Some(left));
                            }
                            if right_next == Some(j) {
                                assert(o.prev@[j as int] == Some(right));
                            }
                            assert forall|k: int| i < k < j implies !#[trigger] self.active@[k] by {
                                assert(!o.active@[k]);
                            }
                        },
                        None => {
                            assert forall|k: int| i < k < self.len() implies !#[trigger] self.active@[
                                k
                            ] by {
                                assert(!o.active@[k]);
                            }
                        },
                    }
                    match o.prev@[i] {
                        Some(h) => {
                            assert(o.link_ok(h as int));
                            if h as int == rr {
                                assert(o.next@[rr] == Some(i as usize));
                                assert(right_next == Some(i as usize));
                            }
                            if h as int == l {
                                assert(o.next@[l] == Some(i as usize));
                            }
                        },
                        None => {},
                    }
                }
            }
        }
        Ok(())
    }

    /// The ends of the active segments, in increasing order: a valid
    /// segmentation of the signal with one breakpoint per active segment.
    pub fn breakpoints(&self) -> (r: Vec<usize>)
        requires
            self.wf(),
        ensures
            r@ == self.active_ends(self.len()),
            r@.len() == self.segment_count(),
            valid_breakpoints(r@, self.spec_n_samples() as int, self.spec_min_size() as int),
    {
        let count = self.starts.len();
        let mut out: Vec<usize> = Vec::new();
        let mut last: usize = 0;
        let mut index: usize = 0;
        while index < count
            invariant
                self.wf(),
                count == self.len(),
                index <= count,
                out@.len() == index - inactive_count(self.active@.subrange(0, index as int)),
                out@ == self.active_ends(index as int),
                index > 0 ==> {
                    &&& last < index
                    &&& self.active@[last as int]
                    &&& out@.len() >= 1
                    &&& out@.last() == self.ends@[last as int]
                    &&& forall|k: int| last < k < index ==> !#[trigger] self.active@[k]
                },
                forall|i: int|
                    0 <= i < out@.len() ==> segment_start(out@, i) + self.min_size <= #[trigger] out@[i]
                        && out@[i] <= self.n_samples,
            decreases count - index,
        {
            proof {
                lemma_inactive_count_prefix(self.active@, index as int);
            }
            if self.active[index] {
                proof {
                    assert(self.link_ok(index as int));
                    if index > 0 {
                        assert(self.link_ok(last as int));
                        match self.next@[last as int] {
                            Some(j) => {
                                if (j as int) < index {
                                    assert(!self.active@[j as int]);
                                } else if (j as int) > index {
                                    assert(!self.active@[index as int]);
                                }
                            },
                            None => {
                                assert(!self.active@[index as int]);
                            },
                        }
                        assert(segment_start(out@.push(self.ends@[index as int]), out@.len() as int)
                            == out@.last());
                    }
                    match self.next@[index as int] {
                        Some(j) => {
                            assert(self.link_ok(j as int));
                        },
                        None => {},
                    }
                }
                let ghost old_out = out@;
                let ghost old_last = last;
                out.push(self.ends[index]);
                last = index;
                proof {
                    assert forall|i: int| 0 <= i < out@.len() implies segment_start(out@, i)
                        + self.min_size <= #[trigger] out@[i] && out@[i] <= self.n_samples by {
                        if i < old_out.len() {
                            assert(out@[i] == old_out[i]);
                            if i > 0 {
                                assert(out@[i - 1] == old_out[i - 1]);
                            }
                        } else {
                            assert(out@[i] == self.ends@[index as int]);
                            if i > 0 {
                                assert(out@[i - 1] == old_out.last());
                                assert(self.ends@[old_last as int] == self.starts@[index as int]);
                            } else {
                                assert(index == 0);
                            }
                        }
                    }
                }
            }
            index = index + 1;
        }
        proof {
            assert(self.active@.subrange(0, count as int) =~= self.active@);
            assert(self.link_ok(last as int));
            match self.next@[last as int] {
                Some(j) => {
                    assert(self.active@[j as int]);
                },
                None => {},
            }
        }
        out
    }
}

proof fn lemma_leaf_cover_bounded(s: Seq<(usize, usize)>, start: int, end: int, i: int)
    requires
        crate::greedy::leaf_cover(s, start, end),
        0 <= i < s.len(),
    ensures
        forall|k: int| i <= k < s.len() ==> #[trigger] s[k].1 <= end,
    decreases s.len() - i,
{
    if i + 1 < s.len() {
        lemma_leaf_cover_bounded(s, start, end, i + 1);
        assert(s[i].1 == s[i + 1].0);
        assert(s[i + 1].0 <= s[i + 1].1);
    }
}

proof fn lemma_all_active_count(n: nat)
    ensures
        inactive_count(Seq::new(n, |i: int| true)) == 0,
    decreases n,
{
    if n > 0 {
        lemma_all_active_count((n - 1) as nat);
        assert(Seq::new(n, |i: int| true).drop_last() =~= Seq::new((n - 1) as nat, |i: int| true));
    }
}

} // verus!
