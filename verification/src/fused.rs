use vstd::prelude::*;

use crate::dynp::{
    grid_segmentation, grid_spacing, lemma_grid_spacing_facts, lemma_state_index, lemma_state_index_distinct, reverse_of,
    try_filled_vec,
};
use crate::error::Error;
use crate::segmentation::{segment_start, valid_breakpoints, SearchGrid};

verus! {

/// Marker of a fused dynamic-programming state that has no predecessor.
pub const NO_FUSED_PREDECESSOR: usize = usize::MAX;

/// `position` may end a segment of the fused search: it is the end of the
/// signal or a multiple of `jump`.
pub open spec fn on_sample_grid(position: int, n_samples: int, jump: int) -> bool {
    position == n_samples || position % jump == 0
}

/// A fixed number of changes fits the fused search: the signal holds one
/// minimal segment, the internal spacing is representable, and `changes`
/// spaced breakpoints leave a final segment of at least `min_size` samples.
pub open spec fn fused_feasible(n_samples: int, changes: int, min_size: int, jump: int) -> bool {
    &&& n_samples >= min_size
    &&& grid_spacing(min_size, jump) <= usize::MAX
    &&& changes * grid_spacing(min_size, jump) + min_size <= n_samples
}

/// The float-free part of an exact kernel search that scans every sample as a
/// segment end: the signal length and the admissible grid.
#[derive(Clone, Copy, Debug)]
pub struct FusedSearch {
    n_samples: usize,
    grid: SearchGrid,
}

impl FusedSearch {
    #[verifier::type_invariant]
    spec fn inv(self) -> bool {
        self.grid.wf()
    }

    pub closed spec fn spec_n_samples(self) -> usize {
        self.n_samples
    }

    pub closed spec fn spec_grid(self) -> SearchGrid {
        self.grid
    }

    pub fn new(n_samples: usize, min_size: usize, jump: usize) -> (r: Result<Self, Error>)
        ensures
            match r {
                Ok(search) => min_size > 0 && jump > 0 && search.spec_n_samples() == n_samples
                    && search.spec_grid() == (SearchGrid { min_size, jump }),
                Err(e) => if min_size == 0 {
                    e == (Error::InvalidMinSize { value: min_size })
                } else {
                    jump == 0 && e == (Error::InvalidJump { value: jump })
                },
            },
    {
        let grid = SearchGrid::new(min_size, jump)?;
        Ok(FusedSearch { n_samples, grid })
    }

    pub fn n_samples(&self) -> (r: usize)
        ensures
            r == self.spec_n_samples(),
    {
        self.n_samples
    }

    pub fn grid(&self) -> (r: SearchGrid)
        ensures
            r == self.spec_grid(),
            r.wf(),
    {
        proof {
            use_type_invariant(self);
        }
        self.grid
    }

    /// Whether `position` may end a segment.
    pub fn on_grid(&self, position: usize) -> (r: bool)
        ensures
            r == on_sample_grid(
                position as int,
                self.spec_n_samples() as int,
                self.spec_grid().jump as int,
            ),
    {
        proof {
            use_type_invariant(self);
        }
        position == self.n_samples || position % self.grid.jump == 0
    }

    /// The error reporting that `changes` changes do not fit.
    pub fn infeasible(&self, changes: usize) -> (e: Error)
        ensures
            e == (Error::InfeasibleSegmentation {
                n_samples: self.spec_n_samples(),
                changes,
                min_size: self.spec_grid().min_size,
                jump: self.spec_grid().jump,
            }),
    {
        Error::InfeasibleSegmentation {
            n_samples: self.n_samples,
            changes,
            min_size: self.grid.min_size,
            jump: self.grid.jump,
        }
    }

    /// The grid spacing between consecutive breakpoints when `changes`
    /// changes fit, and the infeasibility error otherwise.
    pub fn validate_feasible(&self, changes: usize) -> (r: Result<usize, Error>)
        ensures
            r is Ok <==> fused_feasible(
                self.spec_n_samples() as int,
                changes as int,
                self.spec_grid().min_size as int,
                self.spec_grid().jump as int,
            ),
            match r {
                Ok(spacing) => spacing == grid_spacing(
                    self.spec_grid().min_size as int,
                    self.spec_grid().jump as int,
                ),
                Err(e) => e == (Error::InfeasibleSegmentation {
                    n_samples: self.spec_n_samples(),
                    changes,
                    min_size: self.spec_grid().min_size,
                    jump: self.spec_grid().jump,
                }),
            },
    {
        proof {
            use_type_invariant(self);
        }
        let n_samples = self.n_samples;
        let min_size = self.grid.min_size;
        let jump = self.grid.jump;
        if n_samples < min_size {
            return Err(self.infeasible(changes));
        }
        let quotient = min_size / jump;
        let steps = if min_size % jump != 0 {
            proof {
                vstd::arithmetic::div_mod::lemma_fundamental_div_mod(min_size as int, jump as int);
                assert(quotient < usize::MAX) by (nonlinear_arith)
                    requires
                        min_size == jump * quotient + min_size % jump,
                        jump >= 2,
                        min_size <= usize::MAX,
                        quotient >= 0,
                        min_size % jump >= 0,
                ;
            }
            quotient + 1
        } else {
            quotient
        };
        let spacing = match steps.checked_mul(jump) {
            Some(value) => value,
            None => return Err(self.infeasible(changes)),
        };
        let internal = match changes.checked_mul(spacing) {
            Some(value) => value,
            None => return Err(self.infeasible(changes)),
        };
        let required = match internal.checked_add(min_size) {
            Some(value) => value,
            None => return Err(self.infeasible(changes)),
        };
        if required > n_samples {
            return Err(self.infeasible(changes));
        }
        Ok(spacing)
    }

    /// The latest start of a segment that ends at `end`, when `end` can end
    /// a segment of at least `min_size` samples.
    pub fn latest_start(&self, end: usize) -> (r: Option<usize>)
        ensures
            match r {
                Some(start) => on_sample_grid(
                    end as int,
                    self.spec_n_samples() as int,
                    self.spec_grid().jump as int,
                ) && end >= self.spec_grid().min_size && start == end - self.spec_grid().min_size,
                None => !on_sample_grid(
                    end as int,
                    self.spec_n_samples() as int,
                    self.spec_grid().jump as int,
                ) || end < self.spec_grid().min_size,
            },
    {
        if !self.on_grid(end) || end < self.grid.min_size {
            return None;
        }
        Some(end - self.grid.min_size)
    }
}

/// The states that a segment starting at `start` extends in the fixed-`K`
/// search: states `1..=r.0` read their predecessor at `start`, and `r.1`
/// names the state that `start` reaches first, if any.
pub fn start_states(start: usize, spacing: usize, changes: usize) -> (r: (usize, Option<usize>))
    requires
        spacing > 0,
    ensures
        r.0 == (if changes < start / spacing {
            changes
        } else {
            start / spacing
        }),
        r.1 == (if start % spacing == 0 && 1 <= start / spacing <= changes {
            Some(start / spacing)
        } else {
            None::<usize>
        }),
{
    let feasible = start / spacing;
    let maximum = if changes < feasible {
        changes
    } else {
        feasible
    };
    let fresh = if start % spacing == 0 && 1 <= feasible && feasible <= changes {
        Some(feasible)
    } else {
        None
    };
    (maximum, fresh)
}

/// The next start after `start` on a grid of step `jump`, up to `latest`.
pub fn next_start(start: usize, jump: usize, latest: usize) -> (r: Option<usize>)
    ensures
        match r {
            Some(next) => next == start + jump && next <= latest,
            None => start + jump > latest,
        },
{
    if start > latest || jump > latest - start {
        return None;
    }
    Some(start + jump)
}

/// The elements of `v` in reverse order.
pub(crate) fn reversed_copy(v: &Vec<usize>) -> (r: Vec<usize>)
    ensures
        r@ == reverse_of(v@),
{
    let mut out: Vec<usize> = Vec::new();
    let mut index: usize = v.len();
    while index > 0
        invariant
            index <= v@.len(),
            out@ == reverse_of(v@).subrange(0, (v@.len() - index) as int),
        decreases index,
    {
        index = index - 1;
        out.push(v[index]);
        proof {
            assert(out@ =~= reverse_of(v@).subrange(0, (v@.len() - index) as int));
        }
    }
    proof {
        assert(out@ =~= reverse_of(v@));
    }
    out
}

/// Predecessors of the fixed-`K` fused search. State `(e, c)` is the best
/// segmentation of `[0, e)` with `c` changes; its entry holds the start of
/// its last segment. State `(e, 0)` is the single segment `[0, e)`.
///
/// Only admissible predecessors can be recorded, so every reachable state
/// reads back as a valid segmentation on the grid.
#[derive(Clone, Debug)]
pub struct FusedFixedTable {
    n_samples: usize,
    min_size: usize,
    jump: usize,
    spacing: usize,
    changes: usize,
    predecessors: Vec<usize>,
}

impl FusedFixedTable {
    pub closed spec fn spec_n_samples(self) -> usize {
        self.n_samples
    }

    pub closed spec fn spec_min_size(self) -> usize {
        self.min_size
    }

    pub closed spec fn spec_jump(self) -> usize {
        self.jump
    }

    pub closed spec fn spec_spacing(self) -> usize {
        self.spacing
    }

    pub closed spec fn spec_changes(self) -> usize {
        self.changes
    }

    /// The recorded predecessor of state `(e, c)`.
    pub closed spec fn pred(self, e: int, c: int) -> usize {
        self.predecessors@[e * (self.changes + 1) + c]
    }

    /// State `(e, c)` has been reached.
    pub closed spec fn reached(self, e: int, c: int) -> bool {
        if c == 0 {
            on_sample_grid(e, self.n_samples as int, self.jump as int) && self.min_size <= e
                <= self.n_samples
        } else {
            1 <= c <= self.changes && 0 <= e <= self.n_samples && self.pred(e, c)
                != NO_FUSED_PREDECESSOR
        }
    }

    /// A segment `[p, e)` may close state `(e, c)`.
    pub closed spec fn admissible(self, e: int, c: int, p: int) -> bool {
        &&& 1 <= c <= self.changes
        &&& 0 <= p < e <= self.n_samples
        &&& on_sample_grid(e, self.n_samples as int, self.jump as int)
        &&& e - p >= self.min_size
        &&& p % (self.jump as int) == 0
        &&& self.reached(p, c - 1)
    }

    pub closed spec fn wf(self) -> bool {
        &&& self.min_size > 0
        &&& self.jump > 0
        &&& self.min_size <= self.n_samples
        &&& self.changes < usize::MAX
        &&& self.n_samples < usize::MAX
        &&& self.predecessors@.len() == (self.n_samples + 1) * (self.changes + 1)
        &&& forall|e: int, c: int|
            0 <= e <= self.n_samples && 1 <= c <= self.changes && #[trigger] self.pred(e, c)
                != NO_FUSED_PREDECESSOR ==> self.admissible(e, c, self.pred(e, c) as int)
    }

    /// The breakpoints of the segmentation that state `(e, c)` stands for.
    pub closed spec fn chain(self, e: int, c: int) -> Option<Seq<usize>>
        decreases c,
    {
        if c <= 0 {
            if self.reached(e, 0) {
                Some(seq![e as usize])
            } else {
                None
            }
        } else if !(0 <= e <= self.n_samples) || c > self.changes || self.pred(e, c)
            == NO_FUSED_PREDECESSOR {
            None
        } else {
            match self.chain(self.pred(e, c) as int, c - 1) {
                Some(s) => Some(s.push(e as usize)),
                None => None,
            }
        }
    }

    proof fn lemma_chain(self, e: int, c: int)
        requires
            self.wf(),
            0 <= c <= self.changes,
            0 <= e <= self.n_samples,
        ensures
            self.chain(e, c) is Some <==> self.reached(e, c),
            self.chain(e, c) matches Some(s) ==> {
                &&& s.len() == c + 1
                &&& s.last() == e
                &&& forall|i: int|
                    0 <= i <= c ==> segment_start(s, i) + self.min_size <= #[trigger] s[i] && s[i]
                        <= e
                &&& forall|i: int| 0 <= i < c ==> (#[trigger] s[i] as int) % (self.jump as int) == 0
            },
        decreases c,
    {
        if c >= 1 && self.pred(e, c) != NO_FUSED_PREDECESSOR {
            let p = self.pred(e, c) as int;
            assert(self.admissible(e, c, p));
            self.lemma_chain(p, c - 1);
            if let Some(prefix) = self.chain(p, c - 1) {
                let s = prefix.push(e as usize);
                assert(self.chain(e, c) == Some(s));
                assert(s[c - 1] == prefix[c - 1]);
                assert forall|i: int|
                    0 <= i <= c implies segment_start(s, i) + self.min_size <= #[trigger] s[i]
                    && s[i] <= e by {
                    if i < c {
                        assert(s[i] == prefix[i]);
                        if i > 0 {
                            assert(s[i - 1] == prefix[i - 1]);
                        }
                    }
                }
                assert forall|i: int| 0 <= i < c implies (#[trigger] s[i] as int) % (
                self.jump as int) == 0 by {
                    assert(s[i] == prefix[i]);
                }
            }
        }
    }

    /// An empty table for `changes` changes, after checking that they fit.
    pub fn allocate(search: &FusedSearch, changes: usize) -> (r: Result<Self, Error>)
        ensures
            match r {
                Ok(table) => {
                    &&& table.wf()
                    &&& fused_feasible(
                        search.spec_n_samples() as int,
                        changes as int,
                        search.spec_grid().min_size as int,
                        search.spec_grid().jump as int,
                    )
                    &&& table.spec_n_samples() == search.spec_n_samples()
                    &&& table.spec_min_size() == search.spec_grid().min_size
                    &&& table.spec_jump() == search.spec_grid().jump
                    &&& table.spec_changes() == changes
                    &&& table.spec_spacing() == grid_spacing(
                        search.spec_grid().min_size as int,
                        search.spec_grid().jump as int,
                    )
                    &&& forall|e: int, c: int| c >= 1 ==> !#[trigger] table.reached(e, c)
                },
                Err(e) => if !fused_feasible(
                    search.spec_n_samples() as int,
                    changes as int,
                    search.spec_grid().min_size as int,
                    search.spec_grid().jump as int,
                ) {
                    e == (Error::InfeasibleSegmentation {
                        n_samples: search.spec_n_samples(),
                        changes,
                        min_size: search.spec_grid().min_size,
                        jump: search.spec_grid().jump,
                    })
                } else {
                    e == (Error::NumericalFailure { context: "allocating fused KernelCPD tables" })
                        || e == (Error::AllocationFailure {
                        context: "allocating fused KernelCPD tables",
                    })
                },
            },
    {
        let grid = search.grid();
        let n_samples = search.n_samples();
        let width = match changes.checked_add(1) {
            Some(value) => value,
            None => {
                proof {
                    let s = grid_spacing(grid.min_size as int, grid.jump as int);
                    lemma_grid_spacing_facts(grid.min_size as int, grid.jump as int);
                    assert(changes * s >= changes) by (nonlinear_arith)
                        requires
                            s >= 1,
                            changes >= 0,
                    ;
                }
                return Err(search.infeasible(changes));
            },
        };
        let spacing = search.validate_feasible(changes)?;
        let rows = match n_samples.checked_add(1) {
            Some(value) => value,
            None => {
                return Err(Error::NumericalFailure { context: "allocating fused KernelCPD tables" })
            },
        };
        let table_len = match rows.checked_mul(width) {
            Some(value) => value,
            None => {
                return Err(Error::NumericalFailure { context: "allocating fused KernelCPD tables" })
            },
        };
        let predecessors = try_filled_vec(
            table_len,
            NO_FUSED_PREDECESSOR,
            "allocating fused KernelCPD tables",
        )?;
        let table = FusedFixedTable {
            n_samples,
            min_size: grid.min_size,
            jump: grid.jump,
            spacing,
            changes,
            predecessors,
        };
        proof {
            assert forall|e: int, c: int|
                0 <= e <= n_samples && 0 <= c <= changes implies #[trigger] table.pred(e, c)
                == NO_FUSED_PREDECESSOR by {
                lemma_state_index(e, c, width as int, rows as int);
            }
            assert forall|e: int, c: int| c >= 1 implies !#[trigger] table.reached(e, c) by {
                if 1 <= c <= changes && 0 <= e <= n_samples {
                    assert(table.pred(e, c) == NO_FUSED_PREDECESSOR);
                }
            }
            assert(table.wf());
        }
        Ok(table)
    }

    pub fn n_samples(&self) -> (r: usize)
        ensures
            r == self.spec_n_samples(),
    {
        self.n_samples
    }

    pub fn changes(&self) -> (r: usize)
        ensures
            r == self.spec_changes(),
    {
        self.changes
    }

    pub fn spacing(&self) -> (r: usize)
        ensures
            r == self.spec_spacing(),
    {
        self.spacing
    }

    /// Whether state `(end, changes)` has been reached.
    pub fn is_reached(&self, end: usize, changes: usize) -> (r: bool)
        requires
            self.wf(),
        ensures
            r == self.reached(end as int, changes as int),
    {
        if changes == 0 {
            return (end == self.n_samples || end % self.jump == 0) && self.min_size <= end && end
                <= self.n_samples;
        }
        if changes > self.changes || end > self.n_samples {
            return false;
        }
        let width = self.changes + 1;
        let total = self.predecessors.len();
        proof {
            lemma_state_index(end as int, changes as int, width as int, self.n_samples + 1);
        }
        assert(end * width + changes < total);
        let offset = end * width;
        self.predecessors[offset + changes] != NO_FUSED_PREDECESSOR
    }

    /// Records `start` as the start of the last segment of state
    /// `(end, changes)`. A start that is not admissible is refused and leaves
    /// the table unchanged.
    pub fn record(&mut self, end: usize, changes: usize, start: usize) -> (r: Result<(), Error>)
        requires
            old(self).wf(),
        ensures
            final(self).wf(),
            r is Ok <==> old(self).admissible(end as int, changes as int, start as int),
            r matches Err(e) ==> e == (Error::NumericalFailure {
                context: "recording a fused fixed-K predecessor",
            }) && *final(self) == *old(self),
            r is Ok ==> {
                &&& final(self).spec_n_samples() == old(self).spec_n_samples()
                &&& final(self).spec_min_size() == old(self).spec_min_size()
                &&& final(self).spec_jump() == old(self).spec_jump()
                &&& final(self).spec_spacing() == old(self).spec_spacing()
                &&& final(self).spec_changes() == old(self).spec_changes()
                &&& final(self).pred(end as int, changes as int) == start
                &&& forall|e: int, c: int|
                    0 <= e <= final(self).spec_n_samples() && 0 <= c <= final(self).spec_changes()
                        && (e != end || c != changes) ==> #[trigger] final(self).pred(e, c)
                        == old(self).pred(e, c)
            },
    {
        let failure = Error::NumericalFailure { context: "recording a fused fixed-K predecessor" };
        if changes == 0 || changes > self.changes || end > self.n_samples || start >= end {
            return Err(failure);
        }
        if !(end == self.n_samples || end % self.jump == 0) || end - start < self.min_size || start
            % self.jump != 0 {
            return Err(failure);
        }
        if !self.is_reached(start, changes - 1) {
            return Err(failure);
        }
        let width = self.changes + 1;
        let rows = self.n_samples + 1;
        let total = self.predecessors.len();
        proof {
            lemma_state_index(end as int, changes as int, width as int, rows as int);
        }
        assert(end * width + changes < total);
        let offset = end * width;
        let index = offset + changes;
        let ghost before = *self;
        self.predecessors.set(index, start);
        proof {
            assert forall|e: int, c: int|
                0 <= e <= self.n_samples && 0 <= c <= self.changes && (e != end || c
                    != changes) implies #[trigger] self.pred(e, c) == before.pred(e, c) by {
                lemma_state_index_distinct(e, c, end as int, changes as int, width as int);
                lemma_state_index(e, c, width as int, rows as int);
            }
            assert forall|e: int, c: int| #[trigger] before.reached(e, c) implies self.reached(
                e,
                c,
            ) by {
                if c >= 1 && 0 <= e <= self.n_samples && c <= self.changes && (e != end || c
                    != changes) {
                    assert(self.pred(e, c) == before.pred(e, c));
                }
            }
            assert forall|e: int, c: int|
                0 <= e <= self.n_samples && 1 <= c <= self.changes && #[trigger] self.pred(e, c)
                    != NO_FUSED_PREDECESSOR implies self.admissible(e, c, self.pred(e, c) as int) by {
                if e == end && c == changes {
                    assert(before.reached(start as int, c - 1));
                } else {
                    assert(self.pred(e, c) == before.pred(e, c));
                    assert(before.admissible(e, c, before.pred(e, c) as int));
                    assert(before.reached(before.pred(e, c) as int, c - 1));
                }
            }
        }
        Ok(())
    }

    /// The breakpoints of the best segmentation of the whole signal with
    /// the table's number of changes.
    pub fn backtrack(&self) -> (r: Result<Vec<usize>, Error>)
        requires
            self.wf(),
        ensures
            r is Ok <==> self.reached(self.spec_n_samples() as int, self.spec_changes() as int),
            match r {
                Ok(breakpoints) => {
                    &&& Some(breakpoints@) == self.chain(
                        self.spec_n_samples() as int,
                        self.spec_changes() as int,
                    )
                    &&& grid_segmentation(
                        breakpoints@,
                        self.spec_n_samples() as int,
                        self.spec_changes() as int,
                        self.spec_min_size() as int,
                        self.spec_jump() as int,
                    )
                },
                Err(e) => e == (Error::NumericalFailure {
                    context: "reconstructing a fused fixed-K path",
                }),
            },
    {
        let width = self.changes + 1;
        let rows = self.n_samples + 1;
        let total = self.predecessors.len();
        let ghost target = self.chain(self.n_samples as int, self.changes as int);
        proof {
            self.lemma_chain(self.n_samples as int, self.changes as int);
        }
        let mut reversed: Vec<usize> = Vec::new();
        let mut cursor: usize = self.n_samples;
        let mut count: usize = self.changes;
        while count > 0
            invariant
                self.wf(),
                width == self.changes + 1,
                rows == self.n_samples + 1,
                total == self.predecessors@.len(),
                count <= self.changes,
                cursor <= self.n_samples,
                count == 0 ==> self.reached(cursor as int, 0),
                target == self.chain(self.n_samples as int, self.changes as int),
                target is Some <==> self.reached(self.n_samples as int, self.changes as int),
                match self.chain(cursor as int, count as int) {
                    Some(prefix) => target == Some(prefix + reverse_of(reversed@)),
                    None => target is None,
                },
            decreases count,
        {
            proof {
                lemma_state_index(cursor as int, count as int, width as int, rows as int);
                assert(cursor * width + count < total);
            }
            let ghost old_reversed = reversed@;
            reversed.push(cursor);
            let offset = cursor * width;
            let predecessor = self.predecessors[offset + count];
            if predecessor == NO_FUSED_PREDECESSOR {
                return Err(Error::NumericalFailure { context: "reconstructing a fused fixed-K path" });
            }
            proof {
                let p = predecessor as int;
                assert(self.pred(cursor as int, count as int) == predecessor);
                assert(self.admissible(cursor as int, count as int, p));
                assert(reverse_of(reversed@) =~= seq![cursor] + reverse_of(old_reversed));
                if let Some(prefix) = self.chain(p, count - 1) {
                    assert(prefix.push(cursor) + reverse_of(old_reversed) =~= prefix + reverse_of(
                        reversed@,
                    ));
                }
            }
            cursor = predecessor;
            count = count - 1;
        }
        let ghost old_reversed = reversed@;
        reversed.push(cursor);
        proof {
            assert(self.chain(cursor as int, 0) == Some(seq![cursor]));
            assert(reverse_of(reversed@) =~= seq![cursor] + reverse_of(old_reversed));
        }
        let path = reversed_copy(&reversed);
        proof {
            assert(path@ == reverse_of(reversed@));
            self.lemma_chain(self.n_samples as int, self.changes as int);
        }
        Ok(path)
    }
}


/// Keeps the starts whose pruning deadline lies after `end`.
pub open spec fn alive_after(deadlines: Seq<usize>, end: usize) -> spec_fn(usize) -> bool {
    |start: usize| deadlines[start as int] > end
}

/// Keeps the starts that leave at least `min_size` samples before `end`.
pub open spec fn fits_before(end: usize, min_size: usize) -> spec_fn(usize) -> bool {
    |start: usize| start + min_size <= end
}

pub(crate) proof fn lemma_filter_step(s: Seq<usize>, i: int, f: spec_fn(usize) -> bool)
    requires
        0 <= i < s.len(),
    ensures
        s.subrange(0, i + 1).filter(f) == if f(s[i]) {
            s.subrange(0, i).filter(f).push(s[i])
        } else {
            s.subrange(0, i).filter(f)
        },
{
    reveal(Seq::filter);
    assert(s.subrange(0, i + 1).drop_last() =~= s.subrange(0, i));
}

/// Predecessors and pruned candidate starts of the penalized fused search,
/// indexed by sample. A start stays active until its pruning deadline; every
/// active start is reached, on the grid, and the active starts increase.
#[derive(Clone, Debug)]
pub struct FusedPenalizedTable {
    n_samples: usize,
    min_size: usize,
    jump: usize,
    predecessors: Vec<usize>,
    active: Vec<usize>,
    prune_at: Vec<usize>,
}

impl FusedPenalizedTable {
    pub closed spec fn spec_n_samples(self) -> usize {
        self.n_samples
    }

    pub closed spec fn spec_min_size(self) -> usize {
        self.min_size
    }

    pub closed spec fn spec_jump(self) -> usize {
        self.jump
    }

    pub closed spec fn spec_active(self) -> Seq<usize> {
        self.active@
    }

    pub closed spec fn spec_deadlines(self) -> Seq<usize> {
        self.prune_at@
    }

    pub closed spec fn spec_predecessors(self) -> Seq<usize> {
        self.predecessors@
    }

    pub closed spec fn pred(self, e: int) -> usize {
        self.predecessors@[e]
    }

    /// Sample `e` ends some feasible segmentation of `[0, e)`.
    pub closed spec fn reached(self, e: int) -> bool {
        e == 0 || (0 < e <= self.n_samples && self.pred(e) != NO_FUSED_PREDECESSOR)
    }

    /// A segment `[p, e)` may close a segmentation of `[0, e)`.
    pub closed spec fn admissible(self, e: int, p: int) -> bool {
        &&& 0 <= p < e <= self.n_samples
        &&& on_sample_grid(e, self.n_samples as int, self.jump as int)
        &&& e - p >= self.min_size
        &&& p % (self.jump as int) == 0
        &&& self.reached(p)
    }

    pub closed spec fn wf(self) -> bool {
        &&& self.min_size > 0
        &&& self.jump > 0
        &&& self.min_size <= self.n_samples
        &&& self.n_samples < usize::MAX
        &&& self.predecessors@.len() == self.n_samples + 1
        &&& self.prune_at@.len() == self.n_samples + 1
        &&& forall|e: int|
            0 < e <= self.n_samples && #[trigger] self.pred(e) != NO_FUSED_PREDECESSOR
                ==> self.admissible(e, self.pred(e) as int)
        &&& forall|i: int, j: int|
            0 <= i < j < self.active@.len() ==> #[trigger] self.active@[i]
                < #[trigger] self.active@[j]
        &&& forall|i: int|
            0 <= i < self.active@.len() ==> #[trigger] self.active@[i] <= self.n_samples
                && self.reached(self.active@[i] as int) && (self.active@[i] % self.jump == 0
                || self.active@[i] == self.n_samples)
    }

    /// The breakpoints of the segmentation that ends at sample `e`.
    pub closed spec fn chain(self, e: int) -> Option<Seq<usize>>
        decreases e,
    {
        if e <= 0 {
            if e == 0 {
                Some(Seq::empty())
            } else {
                None
            }
        } else if e > self.n_samples || self.pred(e) == NO_FUSED_PREDECESSOR || self.pred(e) as int
            >= e {
            None
        } else {
            match self.chain(self.pred(e) as int) {
                Some(s) => Some(s.push(e as usize)),
                None => None,
            }
        }
    }

    proof fn lemma_chain(self, e: int)
        requires
            self.wf(),
            0 <= e <= self.n_samples,
        ensures
            self.chain(e) is Some <==> self.reached(e),
            self.chain(e) matches Some(s) ==> {
                &&& e == 0 ==> s.len() == 0
                &&& e > 0 ==> s.len() >= 1 && s.last() == e
                &&& forall|i: int|
                    0 <= i < s.len() ==> segment_start(s, i) + self.min_size <= #[trigger] s[i]
                        && s[i] <= e
                &&& forall|i: int|
                    0 <= i < s.len() - 1 ==> (#[trigger] s[i] as int) % (self.jump as int) == 0
            },
        decreases e,
    {
        if e > 0 && self.pred(e) != NO_FUSED_PREDECESSOR {
            let p = self.pred(e) as int;
            assert(self.admissible(e, p));
            self.lemma_chain(p);
            if let Some(prefix) = self.chain(p) {
                let s = prefix.push(e as usize);
                assert(self.chain(e) == Some(s));
                assert forall|i: int|
                    0 <= i < s.len() implies segment_start(s, i) + self.min_size <= #[trigger] s[i]
                    && s[i] <= e by {
                    if i < s.len() - 1 {
                        assert(s[i] == prefix[i]);
                        if i > 0 {
                            assert(s[i - 1] == prefix[i - 1]);
                        }
                    } else if i > 0 {
                        assert(s[i - 1] == prefix.last());
                    }
                }
                assert forall|i: int| 0 <= i < s.len() - 1 implies (#[trigger] s[i] as int) % (
                self.jump as int) == 0 by {
                    assert(s[i] == prefix[i]);
                    if i == s.len() - 2 {
                        assert(prefix.last() == p);
                    }
                }
            }
        }
    }

    /// An empty table whose only active start is the beginning of the signal.
    pub fn new(search: &FusedSearch) -> (r: Result<Self, Error>)
        requires
            search.spec_n_samples() < usize::MAX,
        ensures
            match r {
                Ok(table) => {
                    &&& table.wf()
                    &&& table.spec_n_samples() == search.spec_n_samples()
                    &&& table.spec_min_size() == search.spec_grid().min_size
                    &&& table.spec_jump() == search.spec_grid().jump
                    &&& table.spec_active() == seq![0usize]
                    &&& forall|e: int| e > 0 ==> !#[trigger] table.reached(e)
                    &&& forall|s: int|
                        0 <= s <= table.spec_n_samples() ==> #[trigger] table.spec_deadlines()[s]
                            == usize::MAX
                },
                Err(e) => if search.spec_n_samples() < search.spec_grid().min_size {
                    e == (Error::SegmentTooShort {
                        start: 0,
                        end: search.spec_n_samples(),
                        length: search.spec_n_samples(),
                        minimum: search.spec_grid().min_size,
                    })
                } else {
                    e == (Error::AllocationFailure { context: "allocating fused penalized tables" })
                },
            },
    {
        let grid = search.grid();
        let n_samples = search.n_samples();
        if n_samples < grid.min_size {
            return Err(
                Error::SegmentTooShort {
                    start: 0,
                    end: n_samples,
                    length: n_samples,
                    minimum: grid.min_size,
                },
            );
        }
        let predecessors = try_filled_vec(
            n_samples + 1,
            NO_FUSED_PREDECESSOR,
            "allocating fused penalized tables",
        )?;
        let prune_at = try_filled_vec(n_samples + 1, usize::MAX, "allocating fused penalized tables")?;
        let mut active: Vec<usize> = Vec::new();
        active.push(0);
        let table = FusedPenalizedTable {
            n_samples,
            min_size: grid.min_size,
            jump: grid.jump,
            predecessors,
            active,
            prune_at,
        };
        proof {
            assert forall|e: int| e > 0 implies !#[trigger] table.reached(e) by {
                if e <= n_samples {
                    assert(table.pred(e) == NO_FUSED_PREDECESSOR);
                }
            }
            assert(table.active@[0] == 0);
            assert(table.wf());
        }
        Ok(table)
    }

    pub fn active(&self) -> (r: &[usize])
        ensures
            r@ == self.spec_active(),
    {
        self.active.as_slice()
    }

    /// Whether sample `e` has been reached.
    pub fn is_reached(&self, e: usize) -> (r: bool)
        requires
            self.wf(),
        ensures
            r == self.reached(e as int),
    {
        if e == 0 {
            return true;
        }
        if e > self.n_samples {
            return false;
        }
        self.predecessors[e] != NO_FUSED_PREDECESSOR
    }

    /// Drops the active starts whose pruning deadline is not after `end`.
    pub fn retain_active(&mut self, end: usize)
        requires
            old(self).wf(),
        ensures
            final(self).wf(),
            final(self).spec_active() == old(self).spec_active().filter(
                alive_after(old(self).spec_deadlines(), end),
            ),
            final(self).spec_n_samples() == old(self).spec_n_samples(),
            final(self).spec_min_size() == old(self).spec_min_size(),
            final(self).spec_jump() == old(self).spec_jump(),
            final(self).spec_predecessors() == old(self).spec_predecessors(),
            final(self).spec_deadlines() == old(self).spec_deadlines(),
    {
        let ghost f = alive_after(self.prune_at@, end);
        let mut kept: Vec<usize> = Vec::new();
        let mut index: usize = 0;
        while index < self.active.len()
            invariant
                self.wf(),
                f == alive_after(self.prune_at@, end),
                index <= self.active@.len(),
                kept@ == self.active@.subrange(0, index as int).filter(f),
                forall|a: int, b: int|
                    0 <= a < b < kept@.len() ==> #[trigger] kept@[a] < #[trigger] kept@[b],
                forall|k: int|
                    0 <= k < kept@.len() ==> #[trigger] kept@[k] <= self.n_samples && self.reached(
                        kept@[k] as int,
                    ) && (kept@[k] % self.jump == 0 || kept@[k] == self.n_samples),
                forall|k: int|
                    0 <= k < kept@.len() && index < self.active@.len() ==> #[trigger] kept@[k]
                        < self.active@[index as int],
            decreases self.active@.len() - index,
        {
            let start = self.active[index];
            proof {
                lemma_filter_step(self.active@, index as int, f);
                if index + 1 < self.active@.len() {
                    assert(self.active@[index as int] < self.active@[index + 1]);
                }
            }
            if self.prune_at[start] > end {
                kept.push(start);
            }
            index = index + 1;
        }
        proof {
            assert(self.active@.subrange(0, self.active@.len() as int) =~= self.active@);
        }
        let ghost before = *self;
        self.active = kept;
        proof {
            assert(self.predecessors@ == before.predecessors@);
            assert forall|e: int| #[trigger] self.reached(e) == before.reached(e) by {}
            assert forall|e: int|
                0 < e <= self.n_samples && #[trigger] self.pred(e)
                    != NO_FUSED_PREDECESSOR implies self.admissible(e, self.pred(e) as int) by {
                assert(before.admissible(e, before.pred(e) as int));
            }
            assert forall|i: int, j: int|
                0 <= i < j < self.active@.len() implies #[trigger] self.active@[i]
                < #[trigger] self.active@[j] by {
                assert(kept@[i] < kept@[j]);
            }
            assert forall|i: int|
                0 <= i < self.active@.len() implies #[trigger] self.active@[i] <= self.n_samples
                && self.reached(self.active@[i] as int) && (self.active@[i] % self.jump == 0
                || self.active@[i] == self.n_samples) by {
                assert(kept@[i] == self.active@[i]);
            }
        }
    }

    /// The first active start, or `end - 1` when no start is active.
    pub fn earliest_active(&self, end: usize) -> (r: usize)
        requires
            end >= 1,
        ensures
            r == if self.spec_active().len() > 0 {
                self.spec_active()[0]
            } else {
                (end - 1) as usize
            },
    {
        if self.active.len() > 0 {
            self.active[0]
        } else {
            end - 1
        }
    }

    /// The active starts that leave at least `min_size` samples before `end`,
    /// in increasing order.
    pub fn candidate_starts(&self, end: usize) -> (r: Vec<usize>)
        requires
            self.wf(),
        ensures
            r@ == self.spec_active().filter(fits_before(end, self.spec_min_size())),
            forall|k: int|
                0 <= k < r@.len() ==> #[trigger] r@[k] + self.spec_min_size() <= end
                    && self.reached(r@[k] as int),
            forall|s: usize|
                self.spec_active().contains(s) && s + self.spec_min_size() <= end
                    ==> #[trigger] r@.contains(s),
            forall|s: usize|
                #[trigger] r@.contains(s) ==> self.spec_active().contains(s) && s
                    + self.spec_min_size() <= end,
    {
        let ghost f = fits_before(end, self.min_size);
        let mut starts: Vec<usize> = Vec::new();
        let mut index: usize = 0;
        while index < self.active.len()
            invariant
                self.wf(),
                f == fits_before(end, self.min_size),
                index <= self.active@.len(),
                starts@ == self.active@.subrange(0, index as int).filter(f),
                forall|k: int|
                    0 <= k < starts@.len() ==> #[trigger] starts@[k] + self.min_size <= end
                        && self.reached(starts@[k] as int),
            decreases self.active@.len() - index,
        {
            let start = self.active[index];
            proof {
                lemma_filter_step(self.active@, index as int, f);
            }
            if start <= end && end - start >= self.min_size {
                starts.push(start);
            }
            index = index + 1;
        }
        proof {
            let a = self.active@;
            assert(a.subrange(0, a.len() as int) =~= a);
            assert forall|s: usize| a.contains(s) && s + self.min_size <= end implies #[trigger] starts@.contains(s) by {
                let i = choose|i: int| 0 <= i < a.len() && a[i] == s;
                a.lemma_filter_contains(f, i);
            }
            assert forall|s: usize| #[trigger] starts@.contains(s) implies a.contains(s) && s
                + self.min_size <= end by {
                a.lemma_filter_contains_rev(f, s);
            }
        }
        starts
    }

    /// Records `start` as the start of the last segment of the best
    /// segmentation of `[0, end)`. A start that is not admissible is refused
    /// and leaves the table unchanged.
    pub fn record(&mut self, end: usize, start: usize) -> (r: Result<(), Error>)
        requires
            old(self).wf(),
        ensures
            final(self).wf(),
            r is Ok <==> old(self).admissible(end as int, start as int),
            r matches Err(e) ==> e == (Error::NumericalFailure {
                context: "recording a fused penalized predecessor",
            }) && *final(self) == *old(self),
            r is Ok ==> {
                &&& final(self).spec_n_samples() == old(self).spec_n_samples()
                &&& final(self).spec_min_size() == old(self).spec_min_size()
                &&& final(self).spec_jump() == old(self).spec_jump()
                &&& final(self).spec_active() == old(self).spec_active()
                &&& final(self).spec_deadlines() == old(self).spec_deadlines()
                &&& final(self).spec_predecessors() == old(self).spec_predecessors().update(
                    end as int,
                    start,
                )
            },
    {
        let failure = Error::NumericalFailure { context: "recording a fused penalized predecessor" };
        if start >= end || end > self.n_samples {
            return Err(failure);
        }
        if !(end == self.n_samples || end % self.jump == 0) || end - start < self.min_size || start
            % self.jump != 0 || !self.is_reached(start) {
            return Err(failure);
        }
        let ghost before = *self;
        self.predecessors.set(end, start);
        proof {
            assert forall|e: int| #[trigger] before.reached(e) implies self.reached(e) by {
                if 0 < e <= self.n_samples && e != end {
                    assert(self.pred(e) == before.pred(e));
                }
            }
            assert forall|e: int|
                0 < e <= self.n_samples && #[trigger] self.pred(e)
                    != NO_FUSED_PREDECESSOR implies self.admissible(e, self.pred(e) as int) by {
                if e == end {
                    assert(before.reached(start as int));
                } else {
                    assert(self.pred(e) == before.pred(e));
                    assert(before.admissible(e, before.pred(e) as int));
                    assert(before.reached(before.pred(e) as int));
                }
            }
            assert forall|i: int| 0 <= i < self.active@.len() implies #[trigger] self.active@[i]
                <= self.n_samples && self.reached(self.active@[i] as int) && (self.active@[i]
                % self.jump == 0 || self.active@[i] == self.n_samples) by {
                assert(before.reached(before.active@[i] as int));
            }
        }
        Ok(())
    }

    /// Lowers the pruning deadline of `start` to `end + min_size`, saturated.
    pub fn schedule_prune(&mut self, start: usize, end: usize)
        requires
            old(self).wf(),
            start <= old(self).spec_n_samples(),
        ensures
            final(self).wf(),
            final(self).spec_deadlines() == old(self).spec_deadlines().update(
                start as int,
                if old(self).spec_deadlines()[start as int] as int <= end
                    + old(self).spec_min_size() {
                    old(self).spec_deadlines()[start as int]
                } else if end + old(self).spec_min_size() > usize::MAX {
                    usize::MAX
                } else {
                    (end + old(self).spec_min_size()) as usize
                },
            ),
            final(self).spec_n_samples() == old(self).spec_n_samples(),
            final(self).spec_min_size() == old(self).spec_min_size(),
            final(self).spec_jump() == old(self).spec_jump(),
            final(self).spec_active() == old(self).spec_active(),
            final(self).spec_predecessors() == old(self).spec_predecessors(),
    {
        let deadline = if end > usize::MAX - self.min_size {
            usize::MAX
        } else {
            end + self.min_size
        };
        let current = self.prune_at[start];
        let ghost before = *self;
        if deadline < current {
            self.prune_at.set(start, deadline);
        } else {
            proof {
                assert(self.prune_at@.update(start as int, current) =~= self.prune_at@);
            }
        }
        proof {
            assert(self.predecessors@ == before.predecessors@);
            assert(self.active@ == before.active@);
            assert forall|e: int| #[trigger] self.reached(e) == before.reached(e) by {}
            assert forall|e: int|
                0 < e <= self.n_samples && #[trigger] self.pred(e)
                    != NO_FUSED_PREDECESSOR implies self.admissible(e, self.pred(e) as int) by {
                assert(before.admissible(e, before.pred(e) as int));
            }
            assert forall|i: int|
                0 <= i < self.active@.len() implies #[trigger] self.active@[i] <= self.n_samples
                && self.reached(self.active@[i] as int) && (self.active@[i] % self.jump == 0
                || self.active@[i] == self.n_samples) by {
                assert(before.reached(before.active@[i] as int));
            }
        }
    }

    /// Makes `end` an active start. Refused unless `end` is reached, on the
    /// grid, and after every active start.
    pub fn activate(&mut self, end: usize) -> (r: Result<(), Error>)
        requires
            old(self).wf(),
        ensures
            final(self).wf(),
            r is Ok <==> (end <= old(self).spec_n_samples() && old(self).reached(end as int) && (
            end % old(self).spec_jump() == 0 || end == old(self).spec_n_samples()) && (old(
                self,
            ).spec_active().len() == 0 || old(self).spec_active().last() < end)),
            match r {
                Ok(()) => final(self).spec_active() == old(self).spec_active().push(end),
                Err(e) => e == (Error::NumericalFailure {
                    context: "activating a fused penalized start",
                }) && final(self).spec_active() == old(self).spec_active(),
            },
            final(self).spec_n_samples() == old(self).spec_n_samples(),
            final(self).spec_min_size() == old(self).spec_min_size(),
            final(self).spec_jump() == old(self).spec_jump(),
            final(self).spec_deadlines() == old(self).spec_deadlines(),
            final(self).spec_predecessors() == old(self).spec_predecessors(),
    {
        let failure = Error::NumericalFailure { context: "activating a fused penalized start" };
        if end > self.n_samples || !(end % self.jump == 0 || end == self.n_samples)
            || !self.is_reached(end) {
            return Err(failure);
        }
        let count = self.active.len();
        if count > 0 && self.active[count - 1] >= end {
            return Err(failure);
        }
        let ghost before = *self;
        self.active.push(end);
        proof {
            assert(self.predecessors@ == before.predecessors@);
            assert forall|e: int| #[trigger] self.reached(e) == before.reached(e) by {}
            assert forall|e: int|
                0 < e <= self.n_samples && #[trigger] self.pred(e)
                    != NO_FUSED_PREDECESSOR implies self.admissible(e, self.pred(e) as int) by {
                assert(before.admissible(e, before.pred(e) as int));
            }
            assert forall|i: int, j: int|
                0 <= i < j < self.active@.len() implies #[trigger] self.active@[i]
                < #[trigger] self.active@[j] by {
                if j == count {
                    if i < count - 1 {
                        assert(before.active@[i] < before.active@[count - 1]);
                    }
                } else {
                    assert(before.active@[i] < before.active@[j]);
                }
            }
            assert forall|i: int|
                0 <= i < self.active@.len() implies #[trigger] self.active@[i] <= self.n_samples
                && self.reached(self.active@[i] as int) && (self.active@[i] % self.jump == 0
                || self.active@[i] == self.n_samples) by {
                if i < count {
                    assert(before.active@[i] == self.active@[i]);
                }
            }
        }
        Ok(())
    }

    /// The breakpoints of the best penalized segmentation of the whole
    /// signal.
    pub fn backtrack(&self) -> (r: Result<Vec<usize>, Error>)
        requires
            self.wf(),
        ensures
            r is Ok <==> self.reached(self.spec_n_samples() as int),
            match r {
                Ok(breakpoints) => {
                    &&& Some(breakpoints@) == self.chain(self.spec_n_samples() as int)
                    &&& grid_segmentation(
                        breakpoints@,
                        self.spec_n_samples() as int,
                        breakpoints@.len() - 1,
                        self.spec_min_size() as int,
                        self.spec_jump() as int,
                    )
                },
                Err(e) => e == (Error::NumericalFailure {
                    context: "reconstructing a fused penalized path",
                }),
            },
    {
        let ghost target = self.chain(self.n_samples as int);
        proof {
            self.lemma_chain(self.n_samples as int);
        }
        let mut reversed: Vec<usize> = Vec::new();
        let mut cursor: usize = self.n_samples;
        while cursor != 0
            invariant
                self.wf(),
                cursor <= self.n_samples,
                target == self.chain(self.n_samples as int),
                target is Some <==> self.reached(self.n_samples as int),
                match self.chain(cursor as int) {
                    Some(prefix) => target == Some(prefix + reverse_of(reversed@)),
                    None => target is None,
                },
            decreases cursor,
        {
            let ghost old_reversed = reversed@;
            reversed.push(cursor);
            let predecessor = self.predecessors[cursor];
            if predecessor == NO_FUSED_PREDECESSOR {
                return Err(
                    Error::NumericalFailure { context: "reconstructing a fused penalized path" },
                );
            }
            proof {
                let p = predecessor as int;
                assert(self.pred(cursor as int) == predecessor);
                assert(self.admissible(cursor as int, p));
                assert(reverse_of(reversed@) =~= seq![cursor] + reverse_of(old_reversed));
                if let Some(prefix) = self.chain(p) {
                    assert(prefix.push(cursor) + reverse_of(old_reversed) =~= prefix + reverse_of(
                        reversed@,
                    ));
                }
            }
            cursor = predecessor;
        }
        let path = reversed_copy(&reversed);
        proof {
            assert(Seq::<usize>::empty() + reverse_of(reversed@) =~= reverse_of(reversed@));
            let b = path@;
            assert forall|i: int| 0 <= i < b.len() - 1 implies (#[trigger] b[i] as int) % (
            self.jump as int) == 0 by {}
        }
        Ok(path)
    }
}

} // verus!
