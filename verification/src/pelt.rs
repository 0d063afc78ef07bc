use vstd::prelude::*;

use crate::dynp::{grid_segmentation, reverse_of};
use crate::fused::{alive_after, lemma_filter_step};
use crate::error::Error;
use crate::grid::{
    candidate_positions, grid_positions, lemma_grid_positions_shape, strictly_increasing,
    valid_start_count,
};
use crate::segmentation::{
    lex_less, lexicographically_smaller, segment_start, unsupported_stop, SearchGrid, StopRule,
};

verus! {

/// Marker of a position that no segmentation reaches yet.
pub const NO_PENALIZED_PREDECESSOR: usize = usize::MAX;

/// Exact penalized change-point detection (optimal partitioning, with PELT
/// pruning when the cost function proves it valid).
#[derive(Clone, Copy, Debug, PartialEq, Eq)]
pub struct Pelt {
    grid: SearchGrid,
}

impl Pelt {
    #[verifier::type_invariant]
    spec fn inv(self) -> bool {
        self.grid.wf()
    }

    pub closed spec fn spec_grid(self) -> SearchGrid {
        self.grid
    }

    pub fn new(min_size: usize, jump: usize) -> (r: Result<Self, Error>)
        ensures
            match r {
                Ok(p) => min_size > 0 && jump > 0 && p.spec_grid() == (SearchGrid {
                    min_size,
                    jump,
                }),
                Err(e) => if min_size == 0 {
                    e == (Error::InvalidMinSize { value: min_size })
                } else {
                    jump == 0 && e == (Error::InvalidJump { value: jump })
                },
            },
    {
        let grid = SearchGrid::new(min_size, jump)?;
        Ok(Self { grid })
    }

    /// Accepts a penalty and refuses the other stopping rules.
    pub fn check_stop(&self, rule: StopRule) -> (r: Result<(), Error>)
        ensures
            r is Ok <==> rule == StopRule::Penalty,
            r matches Err(e) ==> e matches Error::UnsupportedStoppingRule { detector, rule: name }
                && detector@ == "Pelt"@ && name@ == match rule {
                StopRule::Changes => "changes"@,
                StopRule::Penalty => "penalty"@,
                StopRule::Budget => "budget"@,
            },
    {
        match rule {
            StopRule::Penalty => Ok(()),
            _ => Err(unsupported_stop("Pelt", rule)),
        }
    }

    pub fn grid(self) -> (r: SearchGrid)
        ensures
            r == self.spec_grid(),
            r.wf(),
    {
        proof {
            use_type_invariant(&self);
        }
        self.grid
    }

    /// The minimum segment length of a penalized prediction on `n_samples`
    /// samples with a cost function whose shortest segment is
    /// `cost_min_size`.
    pub fn effective_min_size(&self, n_samples: usize, cost_min_size: usize) -> (r: Result<
        usize,
        Error,
    >)
        ensures
            ({
                let m = self.spec_grid().min_size;
                match r {
                    Ok(value) => value == m && m >= cost_min_size && n_samples >= m && m > 0,
                    Err(e) => if m < cost_min_size {
                        e == (Error::MinSizeBelowCost { requested: m, minimum: cost_min_size })
                    } else {
                        n_samples < m && e == (Error::SegmentTooShort {
                            start: 0,
                            end: n_samples,
                            length: n_samples,
                            minimum: m,
                        })
                    },
                }
            }),
    {
        proof {
            use_type_invariant(self);
        }
        if self.grid.min_size < cost_min_size {
            return Err(
                Error::MinSizeBelowCost { requested: self.grid.min_size, minimum: cost_min_size },
            );
        }
        let min_size = self.grid.min_size;
        if n_samples < min_size {
            return Err(
                Error::SegmentTooShort {
                    start: 0,
                    end: n_samples,
                    length: n_samples,
                    minimum: min_size,
                },
            );
        }
        Ok(min_size)
    }

    /// An empty predecessor table for a penalized prediction on
    /// `n_samples` samples.
    pub fn table(&self, n_samples: usize, min_size: usize) -> (r: PenalizedTable)
        requires
            n_samples > 0,
            min_size > 0,
        ensures
            r.wf(),
            r.spec_positions() == grid_positions(n_samples as int, self.spec_grid().jump as int),
            r.spec_n_samples() == n_samples,
            r.spec_min_size() == min_size,
            r.spec_jump() == self.spec_grid().jump,
            forall|e: int| #[trigger] r.reached(e) ==> e == 0,
    {
        proof {
            use_type_invariant(self);
        }
        PenalizedTable::new(n_samples, self.grid.jump, min_size)
    }
}

/// A vector of `length` copies of `value`.
fn filled_usize(length: usize, value: usize) -> (r: Vec<usize>)
    ensures
        r@ == Seq::new(length as nat, |i: int| value),
{
    let mut out: Vec<usize> = Vec::new();
    let mut index: usize = 0;
    while index < length
        invariant
            index <= length,
            out@ == Seq::new(index as nat, |i: int| value),
        decreases length - index,
    {
        out.push(value);
        index = index + 1;
        proof {
            assert(out@ =~= Seq::new(index as nat, |i: int| value));
        }
    }
    out
}

/// Keeps the position indices that leave at least `min_size` samples before
/// position `end_index`.
pub open spec fn fits_before_position(positions: Seq<usize>, end_index: int, min_size: usize) -> spec_fn(
    usize,
) -> bool {
    |i: usize| positions[i as int] + min_size <= positions[end_index]
}

/// Best predecessor of every candidate position of a penalized program,
/// with the candidate starts that pruning keeps active. The best
/// segmentation of `[0, positions[e])` ends with the segment that starts at
/// `positions[predecessor[e]]`.
#[derive(Clone, Debug)]
pub struct PenalizedTable {
    positions: Vec<usize>,
    n_samples: usize,
    jump: usize,
    min_size: usize,
    predecessor: Vec<usize>,
    active: Vec<usize>,
    prune_at: Vec<usize>,
}

impl PenalizedTable {
    pub closed spec fn spec_active(self) -> Seq<usize> {
        self.active@
    }

    pub closed spec fn spec_deadlines(self) -> Seq<usize> {
        self.prune_at@
    }

    pub closed spec fn spec_predecessors(self) -> Seq<usize> {
        self.predecessor@
    }

    pub closed spec fn np(self) -> int {
        self.positions@.len() as int
    }

    pub closed spec fn spec_positions(self) -> Seq<usize> {
        self.positions@
    }

    pub closed spec fn spec_n_samples(self) -> usize {
        self.n_samples
    }

    pub closed spec fn spec_jump(self) -> usize {
        self.jump
    }

    pub closed spec fn spec_min_size(self) -> usize {
        self.min_size
    }

    pub closed spec fn pred(self, e: int) -> usize {
        self.predecessor@[e]
    }

    /// Position `e` is the end of some recorded segmentation.
    pub closed spec fn reached(self, e: int) -> bool {
        e == 0 || (0 < e < self.np() && self.pred(e) != NO_PENALIZED_PREDECESSOR)
    }

    pub closed spec fn admissible(self, e: int, p: int) -> bool {
        &&& 0 <= p < e < self.np()
        &&& self.positions@[e] - self.positions@[p] >= self.min_size
        &&& self.reached(p)
    }

    pub closed spec fn wf(self) -> bool {
        &&& self.min_size > 0
        &&& self.jump > 0
        &&& self.n_samples > 0
        &&& self.positions@ == grid_positions(self.n_samples as int, self.jump as int)
        &&& self.predecessor@.len() == self.np()
        &&& self.prune_at@.len() == self.np()
        &&& forall|e: int|
            0 < e < self.np() && #[trigger] self.pred(e) != NO_PENALIZED_PREDECESSOR
                ==> self.admissible(e, self.pred(e) as int)
        &&& forall|i: int, j: int|
            0 <= i < j < self.active@.len() ==> #[trigger] self.active@[i]
                < #[trigger] self.active@[j]
        &&& forall|i: int|
            0 <= i < self.active@.len() ==> #[trigger] self.active@[i] < self.np() && self.reached(
                self.active@[i] as int,
            )
    }

    /// Breakpoints of the recorded segmentation of `[0, positions[e])`.
    pub closed spec fn chain(self, e: int) -> Option<Seq<usize>>
        decreases e,
    {
        if e <= 0 {
            Some(Seq::empty())
        } else if e >= self.np() || self.pred(e) == NO_PENALIZED_PREDECESSOR || self.pred(e) as int
            >= e {
            None
        } else {
            match self.chain(self.pred(e) as int) {
                Some(s) => Some(s.push(self.positions@[e])),
                None => None,
            }
        }
    }

    proof fn lemma_chain(self, e: int)
        requires
            self.wf(),
            0 <= e < self.np(),
        ensures
            self.chain(e) is Some <==> self.reached(e),
            self.chain(e) matches Some(s) ==> {
                &&& e >= 1 ==> s.len() >= 1 && s.last() == self.positions@[e]
                &&& e == 0 ==> s.len() == 0
                &&& forall|i: int|
                    0 <= i < s.len() ==> segment_start(s, i) + self.min_size <= #[trigger] s[i]
                        && s[i] <= self.positions@[e]
                &&& forall|i: int|
                    0 <= i < s.len() - 1 ==> (#[trigger] s[i] as int) % (self.jump as int) == 0
            },
        decreases e,
    {
        lemma_grid_positions_shape(self.n_samples as int, self.jump as int);
        if e >= 1 && self.pred(e) != NO_PENALIZED_PREDECESSOR {
            let p = self.pred(e) as int;
            assert(self.admissible(e, p));
            self.lemma_chain(p);
            if let Some(prefix) = self.chain(p) {
                let s = prefix.push(self.positions@[e]);
                assert(self.chain(e) == Some(s));
                if p >= 1 {
                    assert(p < self.np() - 1);
                    assert(self.positions@[p] as int == p * self.jump);
                    vstd::arithmetic::div_mod::lemma_mod_multiples_basic(p, self.jump as int);
                    assert(s[prefix.len() - 1] == self.positions@[p]);
                }
                assert forall|i: int|
                    0 <= i < s.len() implies segment_start(s, i) + self.min_size <= #[trigger] s[i]
                    && s[i] <= self.positions@[e] by {
                    if i < s.len() - 1 {
                        assert(s[i] == prefix[i]);
                        if i > 0 {
                            assert(s[i - 1] == prefix[i - 1]);
                        }
                    }
                }
                assert forall|i: int| 0 <= i < s.len() - 1 implies (#[trigger] s[i] as int) % (
                self.jump as int) == 0 by {
                    assert(s[i] == prefix[i]);
                }
            }
        }
    }

    pub fn new(n_samples: usize, jump: usize, min_size: usize) -> (r: Self)
        requires
            n_samples > 0,
            jump > 0,
            min_size > 0,
        ensures
            r.wf(),
            r.spec_positions() == grid_positions(n_samples as int, jump as int),
            r.spec_n_samples() == n_samples,
            r.spec_jump() == jump,
            r.spec_min_size() == min_size,
            forall|e: int| #[trigger] r.reached(e) ==> e == 0,
            r.spec_active() == seq![0usize],
            forall|i: int| 0 <= i < r.np() ==> #[trigger] r.spec_deadlines()[i] == usize::MAX,
    {
        let positions = candidate_positions(n_samples, jump);
        let mut predecessor: Vec<usize> = Vec::new();
        let mut index: usize = 0;
        while index < positions.len()
            invariant
                index <= positions@.len(),
                predecessor@ == Seq::new(index as nat, |i: int| NO_PENALIZED_PREDECESSOR),
            decreases positions@.len() - index,
        {
            predecessor.push(NO_PENALIZED_PREDECESSOR);
            index = index + 1;
            proof {
                assert(predecessor@ =~= Seq::new(index as nat, |i: int| NO_PENALIZED_PREDECESSOR));
            }
        }
        let prune_at = filled_usize(positions.len(), usize::MAX);
        let mut active: Vec<usize> = Vec::new();
        active.push(0);
        let table = PenalizedTable {
            positions,
            n_samples,
            jump,
            min_size,
            predecessor,
            active,
            prune_at,
        };
        proof {
            lemma_grid_positions_shape(n_samples as int, jump as int);
            assert(table.active@[0] == 0);
            assert forall|e: int| #[trigger] table.reached(e) implies e == 0 by {
                if 0 < e < table.np() {
                    assert(table.pred(e) == NO_PENALIZED_PREDECESSOR);
                }
            }
        }
        table
    }

    pub fn positions(&self) -> (r: &[usize])
        ensures
            r@ == self.spec_positions(),
    {
        self.positions.as_slice()
    }

    pub fn n_positions(&self) -> (r: usize)
        requires
            self.wf(),
        ensures
            r == self.np(),
            r >= 2,
    {
        proof {
            lemma_grid_positions_shape(self.n_samples as int, self.jump as int);
        }
        self.positions.len()
    }

    /// Number of leading positions that can start a segment ending at
    /// position `end_index`.
    pub fn valid_start_count(&self, end_index: usize) -> (r: usize)
        requires
            self.wf(),
            end_index < self.np(),
        ensures
            r <= end_index,
            forall|i: int|
                0 <= i < r ==> self.spec_positions()[end_index as int] - #[trigger] self.spec_positions()[i]
                    >= self.spec_min_size(),
            forall|i: int|
                r <= i < end_index ==> self.spec_positions()[end_index as int]
                    - #[trigger] self.spec_positions()[i] < self.spec_min_size(),
    {
        proof {
            lemma_grid_positions_shape(self.n_samples as int, self.jump as int);
        }
        let end = self.positions[end_index];
        valid_start_count(self.positions.as_slice(), end_index, end, self.min_size)
    }

    pub fn is_reached(&self, index: usize) -> (r: bool)
        requires
            self.wf(),
        ensures
            r == self.reached(index as int),
    {
        if index == 0 {
            return true;
        }
        if index >= self.positions.len() {
            return false;
        }
        self.predecessor[index] != NO_PENALIZED_PREDECESSOR
    }

    /// The recorded predecessor of position `index`, if any.
    pub fn predecessor_of(&self, index: usize) -> (r: Option<usize>)
        requires
            self.wf(),
            index < self.np(),
        ensures
            match r {
                Some(p) => index > 0 && p == self.pred(index as int) && self.admissible(
                    index as int,
                    p as int,
                ),
                None => index == 0 || self.pred(index as int) == NO_PENALIZED_PREDECESSOR,
            },
    {
        if index == 0 {
            return None;
        }
        let p = self.predecessor[index];
        if p == NO_PENALIZED_PREDECESSOR {
            None
        } else {
            proof {
                assert(self.pred(index as int) != NO_PENALIZED_PREDECESSOR);
            }
            Some(p)
        }
    }

    /// Makes the segment `[positions[start_index], positions[end_index])` the
    /// last segment of the best segmentation ending at `end_index`. A start
    /// that is not admissible is refused and the table is left unchanged.
    pub fn record(&mut self, end_index: usize, start_index: usize) -> (r: Result<(), Error>)
        requires
            old(self).wf(),
        ensures
            final(self).wf(),
            r is Ok <==> old(self).admissible(end_index as int, start_index as int),
            r matches Err(e) ==> e == (Error::NumericalFailure {
                context: "recording a penalized predecessor",
            }) && *final(self) == *old(self),
            r is Ok ==> {
                &&& final(self).spec_positions() == old(self).spec_positions()
                &&& final(self).spec_n_samples() == old(self).spec_n_samples()
                &&& final(self).spec_jump() == old(self).spec_jump()
                &&& final(self).spec_min_size() == old(self).spec_min_size()
                &&& final(self).pred(end_index as int) == start_index
                &&& forall|e: int|
                    0 <= e < final(self).np() && e != end_index ==> #[trigger] final(self).pred(e)
                        == old(self).pred(e)
                &&& final(self).spec_active() == old(self).spec_active()
                &&& final(self).spec_deadlines() == old(self).spec_deadlines()
            },
    {
        proof {
            lemma_grid_positions_shape(self.n_samples as int, self.jump as int);
        }
        let failure = Error::NumericalFailure { context: "recording a penalized predecessor" };
        if end_index >= self.positions.len() || start_index >= end_index {
            return Err(failure);
        }
        if self.positions[end_index] - self.positions[start_index] < self.min_size {
            return Err(failure);
        }
        if !self.is_reached(start_index) {
            return Err(failure);
        }
        let ghost before = *self;
        self.predecessor.set(end_index, start_index);
        proof {
            assert forall|e: int| #[trigger] before.reached(e) implies self.reached(e) by {
                if e != end_index && 0 < e < self.np() {
                    assert(self.pred(e) == before.pred(e));
                }
            }
            assert forall|e: int|
                0 < e < self.np() && #[trigger] self.pred(e) != NO_PENALIZED_PREDECESSOR implies self.admissible(
                e,
                self.pred(e) as int,
            ) by {
                if e != end_index {
                    assert(self.pred(e) == before.pred(e));
                    assert(before.admissible(e, before.pred(e) as int));
                    assert(before.reached(before.pred(e) as int));
                }
            }
            assert forall|i: int| 0 <= i < self.active@.len() implies #[trigger] self.active@[i]
                < self.np() && self.reached(self.active@[i] as int) by {
                assert(before.reached(before.active@[i] as int));
            }
        }
        Ok(())
    }

    /// Drops the active starts whose pruning deadline is not after sample
    /// `end`.
    pub fn retain_active(&mut self, end: usize)
        requires
            old(self).wf(),
        ensures
            final(self).wf(),
            final(self).spec_active() == old(self).spec_active().filter(
                alive_after(old(self).spec_deadlines(), end),
            ),
            final(self).spec_positions() == old(self).spec_positions(),
            final(self).spec_n_samples() == old(self).spec_n_samples(),
            final(self).spec_min_size() == old(self).spec_min_size(),
            final(self).spec_jump() == old(self).spec_jump(),
            final(self).spec_predecessors() == old(self).spec_predecessors(),
            final(self).spec_deadlines() == old(self).spec_deadlines(),
    {
        let ghost f = alive_after(self.prune_at@, end);
        let mut kept: Vec<usize> = Vec::new();
        let mut index: usize = 0;
        while index < self.active.len()
            invariant
                self.wf(),
                f == alive_after(self.prune_at@, end),
                index <= self.active@.len(),
                kept@ == self.active@.subrange(0, index as int).filter(f),
                forall|a: int, b: int|
                    0 <= a < b < kept@.len() ==> #[trigger] kept@[a] < #[trigger] kept@[b],
                forall|k: int|
                    0 <= k < kept@.len() ==> #[trigger] kept@[k] < self.np() && self.reached(
                        kept@[k] as int,
                    ),
                forall|k: int|
                    0 <= k < kept@.len() && index < self.active@.len() ==> #[trigger] kept@[k]
                        < self.active@[index as int],
            decreases self.active@.len() - index,
        {
            let start = self.active[index];
            proof {
                lemma_filter_step(self.active@, index as int, f);
                if index + 1 < self.active@.len() {
                    assert(self.active@[index as int] < self.active@[index + 1]);
                }
            }
            if self.prune_at[start] > end {
                kept.push(start);
            }
            index = index + 1;
        }
        proof {
            assert(self.active@.subrange(0, self.active@.len() as int) =~= self.active@);
        }
        let ghost before = *self;
        self.active = kept;
        proof {
            assert forall|e: int| #[trigger] self.reached(e) == before.reached(e) by {}
            assert forall|e: int|
                0 < e < self.np() && #[trigger] self.pred(e) != NO_PENALIZED_PREDECESSOR implies self.admissible(
                e,
                self.pred(e) as int,
            ) by {
                assert(before.admissible(e, before.pred(e) as int));
            }
            assert forall|i: int, j: int|
                0 <= i < j < self.active@.len() implies #[trigger] self.active@[i]
                < #[trigger] self.active@[j] by {
                assert(kept@[i] < kept@[j]);
            }
        }
    }

    /// The active start indices that leave at least `min_size` samples
    /// before position `end_index`, in increasing order.
    pub fn candidate_starts(&self, end_index: usize) -> (r: Vec<usize>)
        requires
            self.wf(),
            end_index < self.np(),
        ensures
            r@ == self.spec_active().filter(
                fits_before_position(self.spec_positions(), end_index as int, self.spec_min_size()),
            ),
            forall|k: int|
                0 <= k < r@.len() ==> #[trigger] r@[k] < end_index && self.admissible(
                    end_index as int,
                    r@[k] as int,
                ),
    {
        proof {
            lemma_grid_positions_shape(self.n_samples as int, self.jump as int);
        }
        let ghost f = fits_before_position(self.positions@, end_index as int, self.min_size);
        let end = self.positions[end_index];
        let mut starts: Vec<usize> = Vec::new();
        let mut index: usize = 0;
        while index < self.active.len()
            invariant
                self.wf(),
                end_index < self.np(),
                end == self.positions@[end_index as int],
                f == fits_before_position(self.positions@, end_index as int, self.min_size),
                strictly_increasing(self.positions@),
                index <= self.active@.len(),
                starts@ == self.active@.subrange(0, index as int).filter(f),
                forall|k: int|
                    0 <= k < starts@.len() ==> #[trigger] starts@[k] < end_index && self.admissible(
                        end_index as int,
                        starts@[k] as int,
                    ),
            decreases self.active@.len() - index,
        {
            let start_index = self.active[index];
            proof {
                lemma_filter_step(self.active@, index as int, f);
            }
            let start = self.positions[start_index];
            if start <= end && end - start >= self.min_size {
                proof {
                    if start_index >= end_index {
                        if start_index > end_index {
                            assert(self.positions@[end_index as int] < self.positions@[start_index as int]);
                        }
                    }
                }
                starts.push(start_index);
            }
            index = index + 1;
        }
        proof {
            assert(self.active@.subrange(0, self.active@.len() as int) =~= self.active@);
        }
        starts
    }

    /// Lowers the pruning deadline of start `start_index` to sample
    /// `end + min_size`, saturated.
    pub fn schedule_prune(&mut self, start_index: usize, end: usize)
        requires
            old(self).wf(),
            start_index < old(self).np(),
        ensures
            final(self).wf(),
            final(self).spec_deadlines() == old(self).spec_deadlines().update(
                start_index as int,
                if old(self).spec_deadlines()[start_index as int] as int <= end
                    + old(self).spec_min_size() {
                    old(self).spec_deadlines()[start_index as int]
                } else if end + old(self).spec_min_size() > usize::MAX {
                    usize::MAX
                } else {
                    (end + old(self).spec_min_size()) as usize
                },
            ),
            final(self).spec_positions() == old(self).spec_positions(),
            final(self).spec_n_samples() == old(self).spec_n_samples(),
            final(self).spec_min_size() == old(self).spec_min_size(),
            final(self).spec_jump() == old(self).spec_jump(),
            final(self).spec_active() == old(self).spec_active(),
            final(self).spec_predecessors() == old(self).spec_predecessors(),
    {
        let deadline = if end > usize::MAX - self.min_size {
            usize::MAX
        } else {
            end + self.min_size
        };
        let current = self.prune_at[start_index];
        let ghost before = *self;
        if deadline < current {
            self.prune_at.set(start_index, deadline);
        } else {
            proof {
                assert(self.prune_at@.update(start_index as int, current) =~= self.prune_at@);
            }
        }
        proof {
            assert forall|e: int| #[trigger] self.reached(e) == before.reached(e) by {}
            assert forall|e: int|
                0 < e < self.np() && #[trigger] self.pred(e) != NO_PENALIZED_PREDECESSOR implies self.admissible(
                e,
                self.pred(e) as int,
            ) by {
                assert(before.admissible(e, before.pred(e) as int));
            }
            assert forall|i: int| 0 <= i < self.active@.len() implies #[trigger] self.active@[i]
                < self.np() && self.reached(self.active@[i] as int) by {
                assert(before.reached(before.active@[i] as int));
            }
        }
    }

    /// Makes position `end_index` an active start. Refused unless it is
    /// reached and after every active start.
    pub fn activate(&mut self, end_index: usize) -> (r: Result<(), Error>)
        requires
            old(self).wf(),
        ensures
            final(self).wf(),
            r is Ok <==> (end_index < old(self).np() && old(self).reached(end_index as int) && (old(
                self,
            ).spec_active().len() == 0 || old(self).spec_active().last() < end_index)),
            match r {
                Ok(()) => final(self).spec_active() == old(self).spec_active().push(end_index),
                Err(e) => e == (Error::NumericalFailure { context: "activating a Pelt start" })
                    && final(self).spec_active() == old(self).spec_active(),
            },
            final(self).spec_positions() == old(self).spec_positions(),
            final(self).spec_n_samples() == old(self).spec_n_samples(),
            final(self).spec_min_size() == old(self).spec_min_size(),
            final(self).spec_jump() == old(self).spec_jump(),
            final(self).spec_deadlines() == old(self).spec_deadlines(),
            final(self).spec_predecessors() == old(self).spec_predecessors(),
    {
        let failure = Error::NumericalFailure { context: "activating a Pelt start" };
        if end_index >= self.positions.len() || !self.is_reached(end_index) {
            return Err(failure);
        }
        let count = self.active.len();
        if count > 0 && self.active[count - 1] >= end_index {
            return Err(failure);
        }
        let ghost before = *self;
        self.active.push(end_index);
        proof {
            assert forall|e: int| #[trigger] self.reached(e) == before.reached(e) by {}
            assert forall|e: int|
                0 < e < self.np() && #[trigger] self.pred(e) != NO_PENALIZED_PREDECESSOR implies self.admissible(
                e,
                self.pred(e) as int,
            ) by {
                assert(before.admissible(e, before.pred(e) as int));
            }
            assert forall|i: int, j: int|
                0 <= i < j < self.active@.len() implies #[trigger] self.active@[i]
                < #[trigger] self.active@[j] by {
                if j == count {
                    if i < count - 1 {
                        assert(before.active@[i] < before.active@[count - 1]);
                    }
                } else {
                    assert(before.active@[i] < before.active@[j]);
                }
            }
            assert forall|i: int| 0 <= i < self.active@.len() implies #[trigger] self.active@[i]
                < self.np() && self.reached(self.active@[i] as int) by {
                if i < count {
                    assert(before.active@[i] == self.active@[i]);
                }
            }
        }
        Ok(())
    }

    /// Breakpoints of the recorded segmentation of `[0, positions[end_index])`.
    fn walk_back(&self, end_index: usize, context: &'static str) -> (r: Result<Vec<usize>, Error>)
        requires
            self.wf(),
            end_index < self.np(),
        ensures
            match r {
                Ok(path) => self.chain(end_index as int) == Some(path@),
                Err(e) => self.chain(end_index as int) is None && e == (Error::NumericalFailure {
                    context,
                }),
            },
    {
        let ghost target = self.chain(end_index as int);
        let mut reversed: Vec<usize> = Vec::new();
        let mut cursor: usize = end_index;
        while cursor != 0
            invariant
                self.wf(),
                cursor < self.np(),
                target == self.chain(end_index as int),
                match self.chain(cursor as int) {
                    Some(prefix) => target == Some(prefix + reverse_of(reversed@)),
                    None => target is None,
                },
            decreases cursor,
        {
            let ghost old_reversed = reversed@;
            reversed.push(self.positions[cursor]);
            let next = self.predecessor[cursor];
            if next == NO_PENALIZED_PREDECESSOR {
                return Err(Error::NumericalFailure { context });
            }
            proof {
                let x = self.positions@[cursor as int];
                assert(self.admissible(cursor as int, next as int));
                assert(reverse_of(reversed@) =~= seq![x] + reverse_of(old_reversed));
                if let Some(prefix) = self.chain(next as int) {
                    assert(prefix.push(x) + reverse_of(old_reversed) =~= prefix + reverse_of(
                        reversed@,
                    ));
                }
            }
            cursor = next;
        }
        let mut path: Vec<usize> = Vec::new();
        let mut index: usize = reversed.len();
        while index > 0
            invariant
                index <= reversed@.len(),
                path@ == reverse_of(reversed@).subrange(0, (reversed@.len() - index) as int),
            decreases index,
        {
            index = index - 1;
            path.push(reversed[index]);
            proof {
                assert(path@ =~= reverse_of(reversed@).subrange(
                    0,
                    (reversed@.len() - index) as int,
                ));
            }
        }
        proof {
            assert(path@ =~= reverse_of(reversed@));
            assert(Seq::<usize>::empty() + reverse_of(reversed@) =~= reverse_of(reversed@));
        }
        Ok(path)
    }

    /// Writes into `output` the breakpoints of the segmentation that ends
    /// with the segment from `start_index` to `end_index`.
    pub fn build_candidate_path(&self, start_index: usize, end_index: usize, output: &mut Vec<usize>) -> (r:
        Result<(), Error>)
        requires
            self.wf(),
            start_index < self.np(),
            end_index < self.np(),
        ensures
            match r {
                Ok(()) => self.chain(start_index as int) is Some && final(output)@ == self.chain(
                    start_index as int,
                ).unwrap().push(self.spec_positions()[end_index as int]),
                Err(e) => self.chain(start_index as int) is None && e == (Error::NumericalFailure {
                    context: "comparing penalized segmentation paths",
                }),
            },
    {
        output.clear();
        let path = self.walk_back(start_index, "comparing penalized segmentation paths")?;
        let mut index: usize = 0;
        while index < path.len()
            invariant
                index <= path@.len(),
                output@ == path@.subrange(0, index as int),
            decreases path@.len() - index,
        {
            output.push(path[index]);
            index = index + 1;
            proof {
                assert(output@ =~= path@.subrange(0, index as int));
            }
        }
        output.push(self.positions[end_index]);
        proof {
            assert(output@ =~= path@.push(self.positions@[end_index as int]));
        }
        Ok(())
    }

    /// Tie-break at `end_index`: whether the segmentation whose last segment
    /// starts at `candidate_start` is lexicographically smaller than the one
    /// through `best_start` (`NO_PENALIZED_PREDECESSOR` when there is none).
    pub fn candidate_path_is_smaller(
        &self,
        candidate_start: usize,
        best_start: usize,
        end_index: usize,
        candidate_path: &mut Vec<usize>,
        best_path: &mut Vec<usize>,
    ) -> (r: Result<bool, Error>)
        requires
            self.wf(),
            candidate_start < self.np(),
            best_start < self.np() || best_start == NO_PENALIZED_PREDECESSOR,
            end_index < self.np(),
        ensures
            match r {
                Ok(smaller) => if best_start == NO_PENALIZED_PREDECESSOR {
                    smaller
                } else {
                    &&& self.chain(candidate_start as int) is Some
                    &&& self.chain(best_start as int) is Some
                    &&& smaller == lex_less(
                        self.chain(candidate_start as int).unwrap().push(
                            self.spec_positions()[end_index as int],
                        ),
                        self.chain(best_start as int).unwrap().push(
                            self.spec_positions()[end_index as int],
                        ),
                    )
                },
                Err(e) => best_start != NO_PENALIZED_PREDECESSOR && (self.chain(
                    candidate_start as int,
                ) is None || self.chain(best_start as int) is None) && e == (
                Error::NumericalFailure { context: "comparing penalized segmentation paths" }),
            },
    {
        if best_start == NO_PENALIZED_PREDECESSOR {
            return Ok(true);
        }
        self.build_candidate_path(candidate_start, end_index, candidate_path)?;
        self.build_candidate_path(best_start, end_index, best_path)?;
        Ok(lexicographically_smaller(candidate_path.as_slice(), best_path.as_slice()))
    }

    /// The breakpoints of the best penalized segmentation of the signal.
    pub fn backtrack(&self) -> (r: Result<Vec<usize>, Error>)
        requires
            self.wf(),
        ensures
            r is Ok <==> self.reached(self.np() - 1),
            match r {
                Ok(breakpoints) => {
                    &&& Some(breakpoints@) == self.chain(self.np() - 1)
                    &&& grid_segmentation(
                        breakpoints@,
                        self.spec_n_samples() as int,
                        breakpoints@.len() - 1,
                        self.spec_min_size() as int,
                        self.spec_jump() as int,
                    )
                },
                Err(e) => e == (Error::NumericalFailure {
                    context: "backtracking a penalized segmentation",
                }),
            },
    {
        proof {
            lemma_grid_positions_shape(self.n_samples as int, self.jump as int);
            self.lemma_chain(self.np() - 1);
        }
        let final_index = self.positions.len() - 1;
        self.walk_back(final_index, "backtracking a penalized segmentation")
    }
}

} // verus!
