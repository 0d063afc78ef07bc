use vstd::prelude::*;

use crate::error::Error;
use crate::grid::{
    candidate_position_count, candidate_positions, grid_positions, internal_count,
    lemma_grid_positions_shape, lemma_mul_le_iff_le_div, valid_start_count,
};
use crate::segmentation::{
    lex_less, lexicographically_smaller, segment_start, unsupported_stop, valid_breakpoints,
    SearchGrid, StopRule,
};

verus! {

broadcast use vstd::layout::layout_of_primitives;

/// Default bound on the prediction workspace of [`Dynp`]: 512 MiB.
pub const DEFAULT_DYNP_MEMORY_LIMIT_BYTES: usize = 536_870_912;

/// Marker of a dynamic-programming state that has no predecessor.
pub const NO_PREDECESSOR: u32 = 4_294_967_295;

/// Bytes of one dynamic-programming score (an IEEE double).
pub const SCORE_BYTES: usize = 8;

// ---------------------------------------------------------------------------
// Feasibility of a fixed number of changes on a grid
// ---------------------------------------------------------------------------

pub open spec fn ceil_div(a: int, b: int) -> int {
    a / b + if a % b != 0 {
        1int
    } else {
        0int
    }
}

/// The smallest grid distance between consecutive internal breakpoints:
/// `min_size` rounded up to a multiple of `jump`.
pub open spec fn grid_spacing(min_size: int, jump: int) -> int {
    ceil_div(min_size, jump) * jump
}

/// `changes` changes fit into `n_samples` samples on the grid.
pub open spec fn changes_fit(n_samples: int, changes: int, min_size: int, jump: int) -> bool {
    n_samples >= min_size && (changes == 0 || changes * grid_spacing(min_size, jump) <= n_samples
        - min_size)
}

/// `b` is a segmentation with exactly `changes` changes whose internal
/// breakpoints lie on multiples of `jump`.
pub open spec fn grid_segmentation(
    b: Seq<usize>,
    n_samples: int,
    changes: int,
    min_size: int,
    jump: int,
) -> bool {
    &&& valid_breakpoints(b, n_samples, min_size)
    &&& b.len() == changes + 1
    &&& forall|i: int| 0 <= i < changes ==> (#[trigger] b[i] as int) % jump == 0
}

pub(crate) proof fn lemma_grid_spacing_facts(min_size: int, jump: int)
    requires
        min_size >= 0,
        jump > 0,
    ensures
        grid_spacing(min_size, jump) >= min_size,
        grid_spacing(min_size, jump) % jump == 0,
        grid_spacing(min_size, jump) >= 0,
        forall|x: int| #![trigger x % jump] x >= min_size && x % jump == 0 ==> x >= grid_spacing(min_size, jump),
{
    let q = min_size / jump;
    let r = min_size % jump;
    vstd::arithmetic::div_mod::lemma_fundamental_div_mod(min_size, jump);
    vstd::arithmetic::div_mod::lemma_mod_bound(min_size, jump);
    let c = ceil_div(min_size, jump);
    assert(c * jump >= min_size) by (nonlinear_arith)
        requires
            min_size == jump * q + r,
            0 <= r < jump,
            c == q + if r != 0 { 1int } else { 0int },
            jump > 0,
    ;
    assert(c >= 0) by (nonlinear_arith)
        requires
            min_size == jump * q + r,
            0 <= r < jump,
            c == q + if r != 0 { 1int } else { 0int },
            jump > 0,
            min_size >= 0,
    ;
    assert(c * jump >= 0) by (nonlinear_arith)
        requires
            c >= 0,
            jump > 0,
    ;
    vstd::arithmetic::div_mod::lemma_mod_multiples_basic(c, jump);
    assert forall|x: int| #![trigger x % jump] x >= min_size && x % jump == 0 implies x >= c
        * jump by {
        vstd::arithmetic::div_mod::lemma_fundamental_div_mod(x, jump);
        let k = x / jump;
        assert(x >= c * jump) by (nonlinear_arith)
            requires
                x == jump * k,
                x >= min_size,
                min_size == jump * q + r,
                0 <= r < jump,
                c == q + if r != 0 { 1int } else { 0int },
                jump > 0,
        ;
    }
}

/// A fixed number of changes is feasible exactly when some segmentation with
/// that many changes respects `min_size` and places every internal breakpoint
/// on the `jump` grid: the feasibility test neither rejects a solvable
/// problem nor accepts an unsolvable one.
pub proof fn lemma_changes_fit_iff_grid_segmentation_exists(
    n_samples: usize,
    changes: usize,
    min_size: usize,
    jump: usize,
)
    requires
        min_size > 0,
        jump > 0,
    ensures
        changes_fit(n_samples as int, changes as int, min_size as int, jump as int) <==> exists|
            b: Seq<usize>,
        | grid_segmentation(b, n_samples as int, changes as int, min_size as int, jump as int),
{
    let n = n_samples as int;
    let k = changes as int;
    let m = min_size as int;
    let j = jump as int;
    let s = grid_spacing(m, j);
    lemma_grid_spacing_facts(m, j);
    if changes_fit(n, k, m, j) {
        let b = Seq::new(
            (k + 1) as nat,
            |i: int|
                if i < k {
                    ((i + 1) * s) as usize
                } else {
                    n_samples
                },
        );
        assert forall|i: int| 0 <= i < k implies (#[trigger] b[i] as int) == (i + 1) * s && (
        b[i] as int) % j == 0 && (i * s) % j == 0 by {
            assert(0 <= (i + 1) * s <= k * s) by (nonlinear_arith)
                requires
                    0 <= i < k,
                    s >= 0,
            ;
            vstd::arithmetic::div_mod::lemma_fundamental_div_mod(s, j);
            let q = s / j;
            assert((i + 1) * s == ((i + 1) * q) * j) by (nonlinear_arith)
                requires
                    s == j * q,
            ;
            assert(i * s == (i * q) * j) by (nonlinear_arith)
                requires
                    s == j * q,
            ;
            vstd::arithmetic::div_mod::lemma_mod_multiples_basic((i + 1) * q, j);
            vstd::arithmetic::div_mod::lemma_mod_multiples_basic(i * q, j);
        }
        assert forall|i: int| 0 <= i < b.len() implies segment_start(b, i) + m <= #[trigger] b[i]
            && b[i] <= n by {
            if i < k {
                assert((i + 1) * s == i * s + s) by (nonlinear_arith);
                assert((i + 1) * s <= k * s) by (nonlinear_arith)
                    requires
                        0 <= i < k,
                        s >= 0,
                ;
                assert(b[i] as int == (i + 1) * s);
                if i > 0 {
                    let h = i - 1;
                    assert(b[h] as int == (h + 1) * s);
                    assert(h + 1 == i);
                }
            } else {
                if k > 0 {
                    let h = k - 1;
                    assert(b[h] as int == (h + 1) * s);
                    assert(h + 1 == k);
                }
            }
        }
        assert(grid_segmentation(b, n, k, m, j));
    }
    if exists|b: Seq<usize>| grid_segmentation(b, n, k, m, j) {
        let b = choose|b: Seq<usize>| grid_segmentation(b, n, k, m, j);
        assert(b[k] == n);
        assert(segment_start(b, k) + m <= b[k]);
        if k > 0 {
            // Every internal breakpoint is at least its rank times the spacing.
            assert forall|i: int| 0 <= i < k implies #[trigger] b[i] >= (i + 1) * s by {
                lemma_breakpoint_lower_bound(b, n, k, m, j, i);
            }
            assert(b[k - 1] >= k * s);
        }
        assert(changes_fit(n, k, m, j));
    }
}

proof fn lemma_breakpoint_lower_bound(b: Seq<usize>, n: int, k: int, m: int, j: int, i: int)
    requires
        m > 0,
        j > 0,
        grid_segmentation(b, n, k, m, j),
        0 <= i < k,
    ensures
        b[i] >= (i + 1) * grid_spacing(m, j),
    decreases i,
{
    let s = grid_spacing(m, j);
    lemma_grid_spacing_facts(m, j);
    vstd::arithmetic::div_mod::lemma_fundamental_div_mod(s, j);
    let q = s / j;
    assert(segment_start(b, i) + m <= b[i]);
    assert((b[i] as int) % j == 0);
    if i == 0 {
        assert(b[0] >= s);
        assert((0 + 1) * s == s) by (nonlinear_arith);
    } else {
        lemma_breakpoint_lower_bound(b, n, k, m, j, i - 1);
        let x = b[i] as int - i * s;
        assert(i * s == (i * q) * j) by (nonlinear_arith)
            requires
                s == j * q,
        ;
        vstd::arithmetic::div_mod::lemma_fundamental_div_mod(b[i] as int, j);
        let bq = b[i] as int / j;
        assert(x == (bq - i * q) * j) by (nonlinear_arith)
            requires
                x == b[i] - i * s,
                b[i] == j * bq + (b[i] as int) % j,
                (b[i] as int) % j == 0,
                i * s == (i * q) * j,
        ;
        vstd::arithmetic::div_mod::lemma_mod_multiples_basic(bq - i * q, j);
        assert(i * s + s == (i + 1) * s) by (nonlinear_arith);
        assert(b[i - 1] >= i * s);
        assert(x >= m);
        assert(x >= s);
    }
}

/// Checks that `changes` changes fit into `n_samples` samples with segments of
/// at least `min_size` samples and internal breakpoints on multiples of
/// `jump`.
pub fn validate_feasible(n_samples: usize, changes: usize, min_size: usize, jump: usize) -> (r:
    Result<(), Error>)
    requires
        jump > 0,
    ensures
        r is Ok <==> changes_fit(n_samples as int, changes as int, min_size as int, jump as int),
        r matches Err(e) ==> e == (Error::InfeasibleSegmentation {
            n_samples,
            changes,
            min_size,
            jump,
        }),
{
    let infeasible = Error::InfeasibleSegmentation { n_samples, changes, min_size, jump };
    proof {
        lemma_grid_spacing_facts(min_size as int, jump as int);
    }
    if n_samples < min_size {
        return Err(infeasible);
    }
    if changes == 0 {
        return Ok(());
    }
    let quotient = min_size / jump;
    let grid_steps = if min_size % jump != 0 {
        proof {
            vstd::arithmetic::div_mod::lemma_fundamental_div_mod(min_size as int, jump as int);
            assert(jump != 1);
            assert(quotient < usize::MAX) by (nonlinear_arith)
                requires
                    min_size == jump * quotient + min_size % jump,
                    jump >= 2,
                    min_size <= usize::MAX,
                    quotient >= 0,
                    min_size % jump >= 0,
            ;
        }
        quotient + 1
    } else {
        quotient
    };
    let internal_spacing = match grid_steps.checked_mul(jump) {
        Some(value) => value,
        None => {
            proof {
                assert(changes * (grid_steps * jump) >= grid_steps * jump) by (nonlinear_arith)
                    requires
                        changes >= 1,
                        grid_steps * jump >= 0,
                ;
            }
            return Err(infeasible);
        },
    };
    let required_internal = match changes.checked_mul(internal_spacing) {
        Some(value) => value,
        None => {
            proof {
                assert(changes * internal_spacing >= internal_spacing) by (nonlinear_arith)
                    requires
                        changes >= 1,
                        internal_spacing >= 0,
                ;
            }
            return Err(infeasible);
        },
    };
    let latest_internal = n_samples - min_size;
    if required_internal > latest_internal {
        return Err(infeasible);
    }
    Ok(())
}

// ---------------------------------------------------------------------------
// Workspace estimate
// ---------------------------------------------------------------------------

pub open spec fn word_bytes() -> int {
    vstd::layout::size_of::<usize>() as int
}

/// Bytes of the fixed-`K` workspace: score and predecessor tables with
/// `K + 2` rows of `M` states, one endpoint batch of `M` positions and costs,
/// and three breakpoint paths of `K + 1` entries.
pub open spec fn dynp_workspace_bytes(n_samples: int, jump: int, changes: int) -> int {
    let m = internal_count(n_samples, jump) + 2;
    let segments = changes + 1;
    (segments + 1) * m * (SCORE_BYTES + 4) + m * (word_bytes() + SCORE_BYTES) + segments * (3
        * word_bytes())
}

/// Exact fixed-`K` change-point detection by dynamic programming over the
/// candidate positions of a search grid.
#[derive(Clone, Copy, Debug, PartialEq, Eq)]
pub struct Dynp {
    grid: SearchGrid,
    max_memory_bytes: usize,
}

impl Dynp {
    #[verifier::type_invariant]
    spec fn inv(self) -> bool {
        self.grid.wf() && self.max_memory_bytes > 0
    }

    pub closed spec fn spec_grid(self) -> SearchGrid {
        self.grid
    }

    pub closed spec fn spec_max_memory_bytes(self) -> usize {
        self.max_memory_bytes
    }

    pub fn new(min_size: usize, jump: usize) -> (r: Result<Self, Error>)
        ensures
            match r {
                Ok(d) => min_size > 0 && jump > 0 && d.spec_grid() == (SearchGrid {
                    min_size,
                    jump,
                }) && d.spec_max_memory_bytes() == DEFAULT_DYNP_MEMORY_LIMIT_BYTES,
                Err(e) => if min_size == 0 {
                    e == (Error::InvalidMinSize { value: min_size })
                } else {
                    jump == 0 && e == (Error::InvalidJump { value: jump })
                },
            },
    {
        Self::with_memory_limit(min_size, jump, DEFAULT_DYNP_MEMORY_LIMIT_BYTES)
    }

    pub fn with_memory_limit(min_size: usize, jump: usize, max_memory_bytes: usize) -> (r: Result<
        Self,
        Error,
    >)
        ensures
            match r {
                Ok(d) => max_memory_bytes > 0 && min_size > 0 && jump > 0 && d.spec_grid() == (
                SearchGrid { min_size, jump }) && d.spec_max_memory_bytes() == max_memory_bytes,
                Err(e) => if max_memory_bytes == 0 {
                    e == (Error::InvalidMemoryLimit { value: max_memory_bytes })
                } else if min_size == 0 {
                    e == (Error::InvalidMinSize { value: min_size })
                } else {
                    jump == 0 && e == (Error::InvalidJump { value: jump })
                },
            },
    {
        if max_memory_bytes == 0 {
            return Err(Error::InvalidMemoryLimit { value: max_memory_bytes });
        }
        let grid = SearchGrid::new(min_size, jump)?;
        Ok(Self { grid, max_memory_bytes })
    }

    /// Accepts a number of changes and refuses the other stopping rules.
    pub fn check_stop(&self, rule: StopRule) -> (r: Result<(), Error>)
        ensures
            r is Ok <==> rule == StopRule::Changes,
            r matches Err(e) ==> e matches Error::UnsupportedStoppingRule { detector, rule: name }
                && detector@ == "Dynp"@ && name@ == match rule {
                StopRule::Changes => "changes"@,
                StopRule::Penalty => "penalty"@,
                StopRule::Budget => "budget"@,
            },
    {
        match rule {
            StopRule::Changes => Ok(()),
            _ => Err(unsupported_stop("Dynp", rule)),
        }
    }

    pub fn grid(self) -> (r: SearchGrid)
        ensures
            r == self.spec_grid(),
            r.wf(),
    {
        proof {
            use_type_invariant(&self);
        }
        self.grid
    }

    pub fn max_memory_bytes(self) -> (r: usize)
        ensures
            r == self.spec_max_memory_bytes(),
            r > 0,
    {
        proof {
            use_type_invariant(&self);
        }
        self.max_memory_bytes
    }

    /// Bytes that a fixed-`K` prediction on `n_samples` samples would use.
    pub fn estimated_memory_bytes(&self, n_samples: usize, changes: usize) -> (r: Result<
        usize,
        Error,
    >)
        ensures
            ({
                let m = internal_count(n_samples as int, self.spec_grid().jump as int) + 2;
                let bytes = dynp_workspace_bytes(
                    n_samples as int,
                    self.spec_grid().jump as int,
                    changes as int,
                );
                let limit = Error::DynpMemoryLimit {
                    requested: usize::MAX,
                    maximum: self.spec_max_memory_bytes(),
                };
                match r {
                    Ok(value) => if changes == 0 {
                        value == 0
                    } else {
                        n_samples > 0 && m < NO_PREDECESSOR && value == bytes
                    },
                    Err(e) => changes > 0 && if n_samples == 0 {
                        e == Error::EmptySignal
                    } else if m > usize::MAX {
                        e == (Error::NumericalFailure {
                            context: "counting Dynp search-grid positions",
                        })
                    } else {
                        e == limit && (m >= NO_PREDECESSOR || bytes > usize::MAX)
                    },
                }
            }),
    {
        proof {
            use_type_invariant(self);
            assert(usize::BITS == 32 || usize::BITS == 64);
        }
        if changes == 0 {
            return Ok(0);
        }
        let limit = Error::DynpMemoryLimit { requested: usize::MAX, maximum: self.max_memory_bytes };
        let n_positions = candidate_position_count(n_samples, self.grid.jump)?;
        if n_positions >= NO_PREDECESSOR as usize {
            return Err(limit);
        }
        let ghost m = n_positions as int;
        let ghost w = word_bytes();
        let ghost k = changes as int;
        let ghost total = dynp_workspace_bytes(n_samples as int, self.grid.jump as int, k);
        proof {
            assert(total == (k + 2) * m * 12 + m * (w + 8) + (k + 1) * (3 * w));
            assert(m * (w + 8) >= 0 && (k + 1) * (3 * w) >= 0 && (k + 2) * m * 12 >= 0)
                by (nonlinear_arith)
                requires
                    m >= 2,
                    w >= 4,
                    k >= 1,
            ;
            assert((k + 2) * m * 12 >= (k + 2) * m && (k + 2) * m >= k + 2) by (nonlinear_arith)
                requires
                    m >= 2,
                    k >= 1,
            ;
        }
        let n_segments = match changes.checked_add(1) {
            Some(value) => value,
            None => return Err(limit),
        };
        let rows = match n_segments.checked_add(1) {
            Some(value) => value,
            None => return Err(limit),
        };
        let state_len = match rows.checked_mul(n_positions) {
            Some(value) => value,
            None => return Err(limit),
        };
        let state_bytes = match state_len.checked_mul(SCORE_BYTES + core::mem::size_of::<u32>()) {
            Some(value) => value,
            None => return Err(limit),
        };
        let position_and_batch_bytes = match n_positions.checked_mul(
            core::mem::size_of::<usize>() + SCORE_BYTES,
        ) {
            Some(value) => value,
            None => return Err(limit),
        };
        let path_bytes = match n_segments.checked_mul(3 * core::mem::size_of::<usize>()) {
            Some(value) => value,
            None => return Err(limit),
        };
        let partial = match state_bytes.checked_add(position_and_batch_bytes) {
            Some(value) => value,
            None => return Err(limit),
        };
        match partial.checked_add(path_bytes) {
            Some(value) => Ok(value),
            None => Err(limit),
        }
    }

    /// Fails with `DynpMemoryLimit` when a fixed-`K` prediction on
    /// `n_samples` samples would exceed the configured workspace limit.
    pub fn check_memory_limit(&self, n_samples: usize, changes: usize) -> (r: Result<(), Error>)
        ensures
            ({
                let m = internal_count(n_samples as int, self.spec_grid().jump as int) + 2;
                let bytes = dynp_workspace_bytes(
                    n_samples as int,
                    self.spec_grid().jump as int,
                    changes as int,
                );
                r is Ok <==> (changes == 0 || (n_samples > 0 && m < NO_PREDECESSOR && bytes
                    <= self.spec_max_memory_bytes()))
            }),
            ({
                let m = internal_count(n_samples as int, self.spec_grid().jump as int) + 2;
                let bytes = dynp_workspace_bytes(
                    n_samples as int,
                    self.spec_grid().jump as int,
                    changes as int,
                );
                let maximum = self.spec_max_memory_bytes();
                r == if changes == 0 {
                    Ok(())
                } else if n_samples == 0 {
                    Err(Error::EmptySignal)
                } else if m > usize::MAX {
                    Err(Error::NumericalFailure { context: "counting Dynp search-grid positions" })
                } else if m >= NO_PREDECESSOR || bytes > usize::MAX {
                    Err(Error::DynpMemoryLimit { requested: usize::MAX, maximum })
                } else if bytes > maximum {
                    Err(Error::DynpMemoryLimit { requested: bytes as usize, maximum })
                } else {
                    Ok(())
                }
            }),
    {
        let estimated = self.estimated_memory_bytes(n_samples, changes)?;
        if estimated > self.max_memory_bytes {
            return Err(
                Error::DynpMemoryLimit { requested: estimated, maximum: self.max_memory_bytes },
            );
        }
        Ok(())
    }

    /// The minimum segment length used for `cost_min_size`, the shortest
    /// segment that the cost function accepts.
    pub fn effective_min_size(&self, cost_min_size: usize) -> (r: Result<usize, Error>)
        ensures
            match r {
                Ok(m) => m == self.spec_grid().min_size && m >= cost_min_size && m > 0,
                Err(e) => self.spec_grid().min_size < cost_min_size && e == (
                Error::MinSizeBelowCost {
                    requested: self.spec_grid().min_size,
                    minimum: cost_min_size,
                }),
            },
    {
        proof {
            use_type_invariant(self);
        }
        if self.grid.min_size < cost_min_size {
            return Err(
                Error::MinSizeBelowCost { requested: self.grid.min_size, minimum: cost_min_size },
            );
        }
        Ok(self.grid.min_size)
    }

    pub fn infeasible(&self, n_samples: usize, changes: usize, min_size: usize) -> (e: Error)
        ensures
            e == (Error::InfeasibleSegmentation {
                n_samples,
                changes,
                min_size,
                jump: self.spec_grid().jump,
            }),
    {
        Error::InfeasibleSegmentation { n_samples, changes, min_size, jump: self.grid.jump }
    }

    /// Checks feasibility of `changes` changes with this detector's grid.
    pub fn validate_feasible(&self, n_samples: usize, changes: usize, min_size: usize) -> (r:
        Result<(), Error>)
        ensures
            r is Ok <==> changes_fit(
                n_samples as int,
                changes as int,
                min_size as int,
                self.spec_grid().jump as int,
            ),
            r matches Err(e) ==> e == (Error::InfeasibleSegmentation {
                n_samples,
                changes,
                min_size,
                jump: self.spec_grid().jump,
            }),
    {
        proof {
            use_type_invariant(self);
        }
        validate_feasible(n_samples, changes, min_size, self.grid.jump)
    }
}

// ---------------------------------------------------------------------------
// Allocation helpers
// ---------------------------------------------------------------------------

/// A vector of `length` copies of `value`, or `AllocationFailure` with the
/// given context when the allocator refuses the space.
pub fn try_filled_vec<T: Copy>(length: usize, value: T, context: &'static str) -> (r: Result<
    Vec<T>,
    Error,
>)
    ensures
        match r {
            Ok(v) => v@ == Seq::new(length as nat, |i: int| value),
            Err(e) => e == (Error::AllocationFailure { context }),
        },
{
    let mut output: Vec<T> = Vec::new();
    if output.try_reserve(length).is_err() {
        return Err(Error::AllocationFailure { context });
    }
    let mut index: usize = 0;
    while index < length
        invariant
            index <= length,
            output@ == Seq::new(index as nat, |i: int| value),
        decreases length - index,
    {
        output.push(value);
        index = index + 1;
        proof {
            assert(output@ =~= Seq::new(index as nat, |i: int| value));
        }
    }
    Ok(output)
}

/// The candidate positions of a grid, allocated fallibly.
pub fn checked_candidate_positions(n_samples: usize, jump: usize) -> (r: Result<Vec<usize>, Error>)
    ensures
        match r {
            Ok(positions) => n_samples > 0 && jump > 0 && positions@ == grid_positions(
                n_samples as int,
                jump as int,
            ),
            Err(e) => if n_samples == 0 {
                e == Error::EmptySignal
            } else if jump == 0 {
                e == (Error::InvalidJump { value: jump })
            } else {
                (internal_count(n_samples as int, jump as int) + 2 > usize::MAX && e == (
                Error::NumericalFailure { context: "counting Dynp search-grid positions" })) || e
                    == (Error::AllocationFailure {
                    context: "allocating Dynp search-grid positions",
                })
            },
        },
{
    let expected = candidate_position_count(n_samples, jump)?;
    let mut reserve: Vec<usize> = Vec::new();
    if reserve.try_reserve(expected).is_err() {
        return Err(Error::AllocationFailure { context: "allocating Dynp search-grid positions" });
    }
    Ok(candidate_positions(n_samples, jump))
}

// ---------------------------------------------------------------------------
// Predecessor table of the fixed-K program
// ---------------------------------------------------------------------------

pub(crate) proof fn lemma_state_index(c: int, e: int, np: int, rows: int)
    requires
        0 <= c < rows,
        0 <= e < np,
    ensures
        0 <= c * np + e < rows * np,
        c * np + e >= e,
{
    assert(0 <= c * np + e < rows * np && c * np + e >= e) by (nonlinear_arith)
        requires
            0 <= c < rows,
            0 <= e < np,
    ;
}

pub(crate) proof fn lemma_state_index_distinct(c1: int, e1: int, c2: int, e2: int, np: int)
    requires
        0 <= c1,
        0 <= c2,
        0 <= e1 < np,
        0 <= e2 < np,
        c1 != c2 || e1 != e2,
    ensures
        c1 * np + e1 != c2 * np + e2,
{
    if c1 == c2 {
    } else if c1 < c2 {
        assert(c1 * np + e1 < c2 * np + e2) by (nonlinear_arith)
            requires
                0 <= c1 < c2,
                0 <= e1 < np,
                0 <= e2,
        ;
    } else {
        assert(c2 * np + e2 < c1 * np + e1) by (nonlinear_arith)
            requires
                0 <= c2 < c1,
                0 <= e2 < np,
                0 <= e1,
        ;
    }
}

/// Predecessor states of the fixed-`K` dynamic program. State `(c, e)` is the
/// best segmentation of `[0, positions[e])` into `c` segments; its entry holds
/// the position index where its last segment starts.
///
/// Only admissible predecessors can be recorded, so every reachable state
/// backtracks to a valid segmentation.
#[derive(Clone, Debug)]
pub struct DynpTable {
    positions: Vec<usize>,
    n_samples: usize,
    jump: usize,
    min_size: usize,
    n_segments: usize,
    predecessors: Vec<u32>,
}

impl DynpTable {
    pub closed spec fn np(self) -> int {
        self.positions@.len() as int
    }

    pub closed spec fn spec_positions(self) -> Seq<usize> {
        self.positions@
    }

    pub closed spec fn spec_n_samples(self) -> usize {
        self.n_samples
    }

    pub closed spec fn spec_jump(self) -> usize {
        self.jump
    }

    pub closed spec fn spec_min_size(self) -> usize {
        self.min_size
    }

    pub closed spec fn spec_n_segments(self) -> usize {
        self.n_segments
    }

    /// The recorded predecessor of state `(c, e)`.
    pub closed spec fn pred(self, c: int, e: int) -> u32 {
        self.predecessors@[c * self.np() + e]
    }

    /// State `(c, e)` has been reached: it is the empty prefix, or a
    /// predecessor has been recorded for it.
    pub closed spec fn reached(self, c: int, e: int) -> bool {
        (c == 0 && e == 0) || (1 <= c <= self.n_segments && 0 <= e < self.np() && self.pred(c, e)
            != NO_PREDECESSOR)
    }

    /// A predecessor `p` is admissible for state `(c, e)`.
    pub closed spec fn admissible(self, c: int, e: int, p: int) -> bool {
        &&& 1 <= c <= self.n_segments
        &&& 0 <= p < e < self.np()
        &&& self.positions@[e] - self.positions@[p] >= self.min_size
        &&& self.reached(c - 1, p)
    }

    pub closed spec fn wf(self) -> bool {
        &&& self.min_size > 0
        &&& self.jump > 0
        &&& self.n_samples > 0
        &&& self.positions@ == grid_positions(self.n_samples as int, self.jump as int)
        &&& self.np() < NO_PREDECESSOR
        &&& self.n_segments >= 1
        &&& self.predecessors@.len() == (self.n_segments + 1) * self.np()
        &&& forall|c: int, e: int|
            1 <= c <= self.n_segments && 0 <= e < self.np() && #[trigger] self.pred(c, e)
                != NO_PREDECESSOR ==> self.admissible(c, e, self.pred(c, e) as int)
    }

    /// The breakpoints of the segmentation that state `(c, e)` stands for,
    /// read back through the recorded predecessors.
    pub closed spec fn chain(self, c: int, e: int) -> Option<Seq<usize>>
        decreases c,
    {
        if c <= 0 {
            if e == 0 {
                Some(Seq::empty())
            } else {
                None
            }
        } else if !(0 <= e < self.np()) || c > self.n_segments || self.pred(c, e)
            == NO_PREDECESSOR {
            None
        } else {
            match self.chain(c - 1, self.pred(c, e) as int) {
                Some(s) => Some(s.push(self.positions@[e])),
                None => None,
            }
        }
    }

    proof fn lemma_chain(self, c: int, e: int)
        requires
            self.wf(),
            0 <= c <= self.n_segments,
            0 <= e < self.np(),
        ensures
            self.chain(c, e) is Some <==> self.reached(c, e),
            self.chain(c, e) matches Some(s) ==> {
                &&& s.len() == c
                &&& c >= 1 ==> s.last() == self.positions@[e]
                &&& forall|i: int|
                    0 <= i < c ==> segment_start(s, i) + self.min_size <= #[trigger] s[i]
                        && s[i] <= self.positions@[e]
                &&& forall|i: int| 0 <= i < c - 1 ==> (#[trigger] s[i] as int) % (self.jump as int) == 0
            },
        decreases c,
    {
        lemma_grid_positions_shape(self.n_samples as int, self.jump as int);
        if c >= 1 && self.pred(c, e) != NO_PREDECESSOR {
            let p = self.pred(c, e) as int;
            assert(self.admissible(c, e, p));
            self.lemma_chain(c - 1, p);
            if let Some(prefix) = self.chain(c - 1, p) {
                let s = prefix.push(self.positions@[e]);
                assert(self.chain(c, e) == Some(s));
                if c >= 2 {
                    assert(self.pred(c - 1, p) != NO_PREDECESSOR);
                    assert(p >= 1);
                    assert(p < self.np() - 1);
                    assert(self.positions@[p] as int == p * self.jump);
                    vstd::arithmetic::div_mod::lemma_mod_multiples_basic(p, self.jump as int);
                    assert(s[c - 2] == self.positions@[p]);
                } else {
                    assert(p == 0);
                }
                assert forall|i: int|
                    0 <= i < c implies segment_start(s, i) + self.min_size <= #[trigger] s[i]
                    && s[i] <= self.positions@[e] by {
                    if i < c - 1 {
                        assert(s[i] == prefix[i]);
                        assert(prefix[i] <= self.positions@[p]);
                        if i > 0 {
                            assert(s[i - 1] == prefix[i - 1]);
                        }
                    }
                }
                assert forall|i: int| 0 <= i < c - 1 implies (#[trigger] s[i] as int) % (
                self.jump as int) == 0 by {
                    assert(s[i] == prefix[i]);
                }
            }
        }
    }

    /// Allocates an empty table for `changes` changes on the grid of
    /// `n_samples` samples with spacing `jump`.
    pub fn allocate(n_samples: usize, jump: usize, changes: usize, min_size: usize) -> (r: Result<
        Self,
        Error,
    >)
        requires
            min_size > 0,
        ensures
            r matches Ok(table) ==> {
                &&& table.wf()
                &&& table.spec_positions() == grid_positions(n_samples as int, jump as int)
                &&& table.spec_n_samples() == n_samples
                &&& table.spec_jump() == jump
                &&& table.spec_min_size() == min_size
                &&& table.spec_n_segments() == changes + 1
                &&& forall|c: int, e: int| #[trigger] table.reached(c, e) ==> c == 0 && e == 0
            },
            r matches Err(e) ==> {
                let m = internal_count(n_samples as int, jump as int) + 2;
                if n_samples == 0 {
                    e == Error::EmptySignal
                } else if jump == 0 {
                    e == (Error::InvalidJump { value: jump })
                } else {
                    ||| e == (Error::AllocationFailure {
                        context: "allocating Dynp search-grid positions",
                    })
                    ||| m > usize::MAX && e == (Error::NumericalFailure {
                        context: "counting Dynp search-grid positions",
                    })
                    ||| m >= NO_PREDECESSOR && e == (Error::NumericalFailure {
                        context: "storing a compact Dynp predecessor",
                    })
                    ||| m < NO_PREDECESSOR && changes == usize::MAX && e == (
                    Error::InfeasibleSegmentation { n_samples, changes, min_size, jump })
                    ||| m < NO_PREDECESSOR && changes < usize::MAX && (changes + 2) * m
                        > usize::MAX && e == (Error::NumericalFailure {
                        context: "allocating Dynp state tables",
                    })
                    ||| m < NO_PREDECESSOR && (changes + 2) * m <= usize::MAX && e == (
                    Error::AllocationFailure { context: "allocating Dynp predecessor states" })
                }
            },
    {
        let positions = checked_candidate_positions(n_samples, jump)?;
        let n_positions = positions.len();
        if n_positions >= NO_PREDECESSOR as usize {
            return Err(Error::NumericalFailure { context: "storing a compact Dynp predecessor" });
        }
        let n_segments = match changes.checked_add(1) {
            Some(value) => value,
            None => {
                return Err(
                    Error::InfeasibleSegmentation { n_samples, changes, min_size, jump },
                )
            },
        };
        let rows = match n_segments.checked_add(1) {
            Some(value) => value,
            None => {
                proof {
                    let m = n_positions as int;
                    assert(m >= 2);
                    assert((changes + 2) * m > usize::MAX) by (nonlinear_arith)
                        requires
                            changes + 2 == usize::MAX + 1,
                            m >= 2,
                    ;
                }
                return Err(Error::NumericalFailure { context: "allocating Dynp state tables" })
            },
        };
        let state_len = match rows.checked_mul(n_positions) {
            Some(value) => value,
            None => {
                return Err(Error::NumericalFailure { context: "allocating Dynp state tables" })
            },
        };
        let predecessors = try_filled_vec(
            state_len,
            NO_PREDECESSOR,
            "allocating Dynp predecessor states",
        )?;
        let table = DynpTable { positions, n_samples, jump, min_size, n_segments, predecessors };
        proof {
            lemma_grid_positions_shape(n_samples as int, jump as int);
            assert forall|c: int, e: int|
                1 <= c <= n_segments && 0 <= e < n_positions implies #[trigger] table.pred(c, e)
                == NO_PREDECESSOR by {
                lemma_state_index(c, e, n_positions as int, rows as int);
            }
            assert forall|c: int, e: int| #[trigger] table.reached(c, e) implies c == 0 && e
                == 0 by {
                if 1 <= c <= n_segments && 0 <= e < n_positions {
                    assert(table.pred(c, e) == NO_PREDECESSOR);
                }
            }
            assert(table.wf());
        }
        Ok(table)
    }

    pub fn positions(&self) -> (r: &[usize])
        ensures
            r@ == self.spec_positions(),
    {
        self.positions.as_slice()
    }

    pub fn n_positions(&self) -> (r: usize)
        requires
            self.wf(),
        ensures
            r == self.np(),
            r >= 2,
    {
        proof {
            lemma_grid_positions_shape(self.n_samples as int, self.jump as int);
        }
        self.positions.len()
    }

    pub fn n_segments(&self) -> (r: usize)
        requires
            self.wf(),
        ensures
            r == self.spec_n_segments(),
            r >= 1,
    {
        self.n_segments
    }

    /// Number of leading positions that can start a segment ending at
    /// position `end_index`.
    pub fn valid_start_count(&self, end_index: usize) -> (r: usize)
        requires
            self.wf(),
            end_index < self.np(),
        ensures
            r <= end_index,
            forall|i: int|
                0 <= i < r ==> self.spec_positions()[end_index as int] - #[trigger] self.spec_positions()[i]
                    >= self.spec_min_size(),
            forall|i: int|
                r <= i < end_index ==> self.spec_positions()[end_index as int]
                    - #[trigger] self.spec_positions()[i] < self.spec_min_size(),
    {
        proof {
            lemma_grid_positions_shape(self.n_samples as int, self.jump as int);
        }
        let end = self.positions[end_index];
        valid_start_count(self.positions.as_slice(), end_index, end, self.min_size)
    }

    /// Whether state `(segment_count, index)` has been reached.
    pub fn is_reached(&self, segment_count: usize, index: usize) -> (r: bool)
        requires
            self.wf(),
        ensures
            r == self.reached(segment_count as int, index as int),
    {
        if segment_count == 0 {
            return index == 0;
        }
        if segment_count > self.n_segments || index >= self.positions.len() {
            return false;
        }
        let np = self.positions.len();
        let total = self.predecessors.len();
        proof {
            lemma_state_index(segment_count as int, index as int, np as int, self.n_segments + 1);
            assert(segment_count * np + index < total);
        }
        let offset = segment_count * np;
        self.predecessors[offset + index] != NO_PREDECESSOR
    }

    /// Records `predecessor` as the start of the last segment of state
    /// `(segment_count, end_index)`. A predecessor that is not admissible is
    /// refused and leaves the table unchanged.
    pub fn record(&mut self, segment_count: usize, end_index: usize, predecessor: usize) -> (r:
        Result<(), Error>)
        requires
            old(self).wf(),
        ensures
            final(self).wf(),
            r is Ok <==> old(self).admissible(
                segment_count as int,
                end_index as int,
                predecessor as int,
            ),
            r matches Err(e) ==> e == (Error::NumericalFailure {
                context: "storing a compact Dynp predecessor",
            }) && *final(self) == *old(self),
            r is Ok ==> {
                &&& final(self).spec_positions() == old(self).spec_positions()
                &&& final(self).spec_n_segments() == old(self).spec_n_segments()
                &&& final(self).spec_min_size() == old(self).spec_min_size()
                &&& final(self).spec_n_samples() == old(self).spec_n_samples()
                &&& final(self).spec_jump() == old(self).spec_jump()
                &&& final(self).pred(segment_count as int, end_index as int) == predecessor as u32
                &&& forall|c: int, e: int|
                    0 <= c <= final(self).spec_n_segments() && 0 <= e < final(self).np() && (c
                        != segment_count || e != end_index) ==> #[trigger] final(self).pred(c, e)
                        == old(self).pred(c, e)
            },
    {
        let failure = Error::NumericalFailure { context: "storing a compact Dynp predecessor" };
        proof {
            lemma_grid_positions_shape(self.n_samples as int, self.jump as int);
        }
        let np = self.positions.len();
        if segment_count == 0 || segment_count > self.n_segments || end_index >= np
            || predecessor >= end_index {
            return Err(failure);
        }
        if self.positions[end_index] - self.positions[predecessor] < self.min_size {
            return Err(failure);
        }
        if !self.is_reached(segment_count - 1, predecessor) {
            return Err(failure);
        }
        proof {
            lemma_state_index(segment_count as int, end_index as int, np as int, self.n_segments + 1);
        }
        let total = self.predecessors.len();
        assert(segment_count * np + end_index < total);
        let offset = segment_count * np;
        let index = offset + end_index;
        let ghost before = *self;
        self.predecessors.set(index, predecessor as u32);
        proof {
            assert forall|c: int, e: int|
                0 <= c <= self.n_segments && 0 <= e < np && (c != segment_count || e
                    != end_index) implies #[trigger] self.pred(c, e) == before.pred(c, e) by {
                lemma_state_index_distinct(c, e, segment_count as int, end_index as int, np as int);
                lemma_state_index(c, e, np as int, self.n_segments + 1);
            }
            assert forall|c: int, e: int| #[trigger] before.reached(c, e) implies self.reached(c, e) by {
                if 1 <= c <= self.n_segments && 0 <= e < np && (c != segment_count || e != end_index) {
                    assert(self.pred(c, e) == before.pred(c, e));
                }
            }
            assert forall|c: int, e: int|
                1 <= c <= self.n_segments && 0 <= e < np && #[trigger] self.pred(c, e)
                    != NO_PREDECESSOR implies self.admissible(c, e, self.pred(c, e) as int) by {
                if c == segment_count && e == end_index {
                    assert(before.reached(c - 1, predecessor as int));
                } else {
                    assert(self.pred(c, e) == before.pred(c, e));
                    assert(before.admissible(c, e, before.pred(c, e) as int));
                    assert(before.reached(c - 1, before.pred(c, e) as int));
                }
            }
        }
        Ok(())
    }

    /// Walks the predecessors of state `(segment_count, end_index)` back to
    /// the empty prefix and returns the breakpoints in increasing order.
    fn walk_back(&self, segment_count: usize, end_index: usize, context: &'static str) -> (r: Result<
        Vec<usize>,
        Error,
    >)
        requires
            self.wf(),
            segment_count <= self.spec_n_segments(),
            end_index < self.np(),
        ensures
            match r {
                Ok(path) => self.chain(segment_count as int, end_index as int) == Some(path@),
                Err(e) => self.chain(segment_count as int, end_index as int) is None && e == (
                Error::NumericalFailure { context }),
            },
    {
        let np = self.positions.len();
        let total = self.predecessors.len();
        let ghost target = self.chain(segment_count as int, end_index as int);
        let mut reversed: Vec<usize> = Vec::new();
        let mut cursor: usize = end_index;
        let mut count: usize = segment_count;
        while count > 0
            invariant
                self.wf(),
                np == self.np(),
                total == self.predecessors@.len(),
                count <= self.spec_n_segments(),
                cursor < np,
                target == self.chain(segment_count as int, end_index as int),
                match self.chain(count as int, cursor as int) {
                    Some(prefix) => target == Some(prefix + reverse_of(reversed@)),
                    None => target is None,
                },
            decreases count,
        {
            proof {
                lemma_state_index(count as int, cursor as int, np as int, self.n_segments + 1);
                assert(count * np + cursor < total);
            }
            let ghost old_reversed = reversed@;
            reversed.push(self.positions[cursor]);
            let offset = count * np;
            let predecessor = self.predecessors[offset + cursor];
            if predecessor == NO_PREDECESSOR {
                return Err(Error::NumericalFailure { context });
            }
            proof {
                let p = predecessor as int;
                assert(self.pred(count as int, cursor as int) == predecessor);
                assert(self.admissible(count as int, cursor as int, p));
                let x = self.positions@[cursor as int];
                assert(reverse_of(reversed@) =~= seq![x] + reverse_of(old_reversed));
                if let Some(prefix) = self.chain(count - 1, p) {
                    assert(prefix.push(x) + reverse_of(old_reversed) =~= prefix + reverse_of(
                        reversed@,
                    ));
                }
            }
            cursor = predecessor as usize;
            count = count - 1;
        }
        if cursor != 0 {
            return Err(Error::NumericalFailure { context });
        }
        let mut path: Vec<usize> = Vec::new();
        let mut index: usize = reversed.len();
        while index > 0
            invariant
                index <= reversed@.len(),
                path@ == reverse_of(reversed@).subrange(0, (reversed@.len() - index) as int),
            decreases index,
        {
            index = index - 1;
            path.push(reversed[index]);
            proof {
                assert(path@ =~= reverse_of(reversed@).subrange(
                    0,
                    (reversed@.len() - index) as int,
                ));
            }
        }
        proof {
            assert(path@ =~= reverse_of(reversed@));
            assert(Seq::<usize>::empty() + reverse_of(reversed@) =~= reverse_of(reversed@));
        }
        Ok(path)
    }

    /// Writes into `output` the breakpoints of the segmentation that state
    /// `(segment_count, end_index)` stands for.
    pub fn build_state_path(&self, segment_count: usize, end_index: usize, output: &mut Vec<usize>) -> (r:
        Result<(), Error>)
        requires
            self.wf(),
            segment_count <= self.spec_n_segments(),
            end_index < self.np(),
        ensures
            match r {
                Ok(()) => self.chain(segment_count as int, end_index as int) == Some(final(output)@),
                Err(e) => self.chain(segment_count as int, end_index as int) is None && e == (
                Error::NumericalFailure { context: "comparing Dynp segmentation paths" }),
            },
    {
        output.clear();
        let path = self.walk_back(segment_count, end_index, "comparing Dynp segmentation paths")?;
        let mut index: usize = 0;
        while index < path.len()
            invariant
                index <= path@.len(),
                output@ == path@.subrange(0, index as int),
            decreases path@.len() - index,
        {
            output.push(path[index]);
            index = index + 1;
            proof {
                assert(output@ =~= path@.subrange(0, index as int));
            }
        }
        proof {
            assert(output@ =~= path@);
        }
        Ok(())
    }

    /// Tie-break between two predecessors of a state with `segment_count + 1`
    /// segments: whether the segmentation through `candidate_end` is
    /// lexicographically smaller than the one through `best_end`, where
    /// `usize::MAX` stands for "no incumbent yet".
    pub fn state_path_is_smaller(
        &self,
        segment_count: usize,
        candidate_end: usize,
        best_end: usize,
        candidate_path: &mut Vec<usize>,
        best_path: &mut Vec<usize>,
    ) -> (r: Result<bool, Error>)
        requires
            self.wf(),
            segment_count <= self.spec_n_segments(),
            candidate_end < self.np(),
            best_end < self.np() || best_end == usize::MAX,
        ensures
            match r {
                Ok(smaller) => if best_end == usize::MAX {
                    smaller
                } else {
                    &&& self.chain(segment_count as int, candidate_end as int) is Some
                    &&& self.chain(segment_count as int, best_end as int) is Some
                    &&& smaller == lex_less(
                        self.chain(segment_count as int, candidate_end as int).unwrap(),
                        self.chain(segment_count as int, best_end as int).unwrap(),
                    )
                },
                Err(e) => best_end != usize::MAX && (self.chain(
                    segment_count as int,
                    candidate_end as int,
                ) is None || self.chain(segment_count as int, best_end as int) is None) && e == (
                Error::NumericalFailure { context: "comparing Dynp segmentation paths" }),
            },
    {
        if best_end == usize::MAX {
            return Ok(true);
        }
        self.build_state_path(segment_count, candidate_end, candidate_path)?;
        self.build_state_path(segment_count, best_end, best_path)?;
        Ok(lexicographically_smaller(candidate_path.as_slice(), best_path.as_slice()))
    }

    /// The breakpoints of the best segmentation of the whole signal into
    /// `n_segments` segments.
    pub fn backtrack(&self) -> (r: Result<Vec<usize>, Error>)
        requires
            self.wf(),
        ensures
            r is Ok <==> self.reached(self.spec_n_segments() as int, self.np() - 1),
            match r {
                Ok(breakpoints) => {
                    &&& Some(breakpoints@) == self.chain(
                        self.spec_n_segments() as int,
                        self.np() - 1,
                    )
                    &&& grid_segmentation(
                        breakpoints@,
                        self.spec_n_samples() as int,
                        self.spec_n_segments() - 1,
                        self.spec_min_size() as int,
                        self.spec_jump() as int,
                    )
                },
                Err(e) => e == (Error::NumericalFailure {
                    context: "backtracking a Dynp segmentation",
                }),
            },
    {
        proof {
            lemma_grid_positions_shape(self.n_samples as int, self.jump as int);
            self.lemma_chain(self.n_segments as int, self.np() - 1);
        }
        let final_index = self.positions.len() - 1;
        self.walk_back(self.n_segments, final_index, "backtracking a Dynp segmentation")
    }
}

/// The elements of `s` in reverse order.
pub open spec fn reverse_of(s: Seq<usize>) -> Seq<usize> {
    Seq::new(s.len(), |i: int| s[s.len() - 1 - i])
}

} // verus!
