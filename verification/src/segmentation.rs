use std::ops::Range;
use vstd::prelude::*;

use crate::error::Error;

verus! {

// ---------------------------------------------------------------------------
// Mathematical model of a segmentation
// ---------------------------------------------------------------------------

/// Start of the `i`-th segment of a breakpoint sequence: zero for the first
/// segment, otherwise the previous breakpoint (half-open convention).
pub open spec fn segment_start(b: Seq<usize>, i: int) -> int {
    if i <= 0 {
        0
    } else {
        b[i - 1] as int
    }
}

/// `b` describes segments `[0, b[0]), [b[0], b[1]), ...` that cover
/// `[0, n)` exactly, each at least `min_size` samples long.
pub open spec fn valid_breakpoints(b: Seq<usize>, n: int, min_size: int) -> bool {
    &&& b.len() > 0
    &&& b.last() == n
    &&& forall|i: int|
        0 <= i < b.len() ==> #[trigger] segment_start(b, i) + min_size <= b[i] && b[i] <= n
}

/// Strict lexicographic order on breakpoint sequences, the order used to
/// choose among segmentations of tied objective (a proper prefix is smaller).
pub open spec fn lex_less(a: Seq<usize>, b: Seq<usize>) -> bool
    decreases a.len(),
{
    if a.len() == 0 {
        b.len() > 0
    } else if b.len() == 0 {
        false
    } else if a[0] != b[0] {
        a[0] < b[0]
    } else {
        lex_less(a.drop_first(), b.drop_first())
    }
}

/// The error that checking the half-open segment `[start, end)` reports, if any.
pub open spec fn segment_error(start: usize, end: usize, n_samples: usize, min_size: usize) -> Option<
    Error,
> {
    if min_size == 0 {
        Some(Error::InvalidMinSize { value: min_size })
    } else if start >= end || end > n_samples {
        Some(Error::InvalidRange { start, end, n_samples })
    } else if end - start < min_size {
        Some(Error::SegmentTooShort {
            start,
            end,
            length: (end - start) as usize,
            minimum: min_size,
        })
    } else {
        None
    }
}

/// The first error met when the breakpoints are read from position `i` on,
/// with the current segment starting at `segment_start(b, i)`.
pub open spec fn breakpoints_error_from(b: Seq<usize>, i: int, n_samples: usize, min_size: usize) -> Option<
    Error,
>
    decreases b.len() - i,
{
    if i < 0 || i >= b.len() {
        let start = segment_start(b, b.len() as int);
        if start != n_samples {
            Some(Error::MissingTerminalBreakpoint { actual: start as usize, n_samples })
        } else {
            None
        }
    } else {
        let start = segment_start(b, i);
        let end = b[i];
        if end <= start || end > n_samples {
            Some(Error::InvalidBreakpoint { position: i as usize, value: end, n_samples })
        } else if end - start < min_size {
            Some(Error::SegmentTooShort {
                start: start as usize,
                end,
                length: (end - start) as usize,
                minimum: min_size,
            })
        } else {
            breakpoints_error_from(b, i + 1, n_samples, min_size)
        }
    }
}

/// The error reported for a breakpoint sequence, if any.
pub open spec fn breakpoints_error(b: Seq<usize>, n_samples: usize, min_size: usize) -> Option<
    Error,
> {
    if min_size == 0 {
        Some(Error::InvalidMinSize { value: min_size })
    } else if b.len() == 0 {
        Some(Error::EmptyBreakpoints)
    } else {
        breakpoints_error_from(b, 0, n_samples, min_size)
    }
}

proof fn lemma_breakpoints_error_from(b: Seq<usize>, i: int, n: usize, min_size: usize)
    requires
        0 <= i <= b.len(),
        b.len() > 0,
        min_size > 0,
    ensures
        breakpoints_error_from(b, i, n, min_size) is None <==> (b.last() == n && forall|j: int|
            i <= j < b.len() ==> segment_start(b, j) + min_size <= #[trigger] b[j] && b[j] <= n),
    decreases b.len() - i,
{
    if i < b.len() {
        lemma_breakpoints_error_from(b, i + 1, n, min_size);
        if breakpoints_error_from(b, i, n, min_size) is None {
            assert forall|j: int| i <= j < b.len() implies segment_start(b, j) + min_size
                <= #[trigger] b[j] && b[j] <= n by {
                if j > i {
                }
            }
        }
    }
}

/// A breakpoint sequence is accepted exactly when it is valid.
pub proof fn lemma_breakpoints_error_iff_invalid(b: Seq<usize>, n: usize, min_size: usize)
    ensures
        breakpoints_error(b, n, min_size) is None <==> (min_size > 0 && valid_breakpoints(
            b,
            n as int,
            min_size as int,
        )),
{
    if min_size > 0 && b.len() > 0 {
        lemma_breakpoints_error_from(b, 0, n, min_size);
    }
}

// ---------------------------------------------------------------------------
// Search grid and stopping rules
// ---------------------------------------------------------------------------

/// The admissible segmentations of a detector: every segment has at least
/// `min_size` samples and internal breakpoints lie on multiples of `jump`.
#[derive(Clone, Copy, Debug, PartialEq, Eq, Structural)]
pub struct SearchGrid {
    pub min_size: usize,
    pub jump: usize,
}

impl SearchGrid {
    pub open spec fn wf(self) -> bool {
        self.min_size > 0 && self.jump > 0
    }

    pub fn new(min_size: usize, jump: usize) -> (r: Result<Self, Error>)
        ensures
            match r {
                Ok(grid) => min_size > 0 && jump > 0 && grid == (SearchGrid { min_size, jump }),
                Err(e) => if min_size == 0 {
                    e == (Error::InvalidMinSize { value: min_size })
                } else {
                    jump == 0 && e == (Error::InvalidJump { value: jump })
                },
            },
    {
        validate_min_size(min_size)?;
        validate_jump(jump)?;
        Ok(Self { min_size, jump })
    }

    /// The minimum segment length of a search on a cost whose shortest
    /// admissible segment has `cost_min_size` samples: the grid's own, which
    /// must not be shorter.
    pub fn effective_min_size(self, cost_min_size: usize) -> (r: Result<usize, Error>)
        ensures
            match r {
                Ok(m) => m == self.min_size && m >= cost_min_size,
                Err(e) => self.min_size < cost_min_size && e == (Error::MinSizeBelowCost {
                    requested: self.min_size,
                    minimum: cost_min_size,
                }),
            },
    {
        if self.min_size < cost_min_size {
            return Err(
                Error::MinSizeBelowCost { requested: self.min_size, minimum: cost_min_size },
            );
        }
        Ok(self.min_size)
    }
}

/// The kind of stopping rule a prediction uses: a number of changes, a
/// penalty per change, or a reconstruction budget.
#[derive(Clone, Copy, Debug, PartialEq, Eq, Structural)]
pub enum StopRule {
    Changes,
    Penalty,
    Budget,
}

impl StopRule {
    /// The rule's name in error messages.
    pub fn name(self) -> (r: &'static str)
        ensures
            r@ == match self {
                StopRule::Changes => "changes"@,
                StopRule::Penalty => "penalty"@,
                StopRule::Budget => "budget"@,
            },
    {
        match self {
            StopRule::Changes => "changes",
            StopRule::Penalty => "penalty",
            StopRule::Budget => "budget",
        }
    }
}

/// The stopping rule of a request that gives a number of changes, a
/// penalty, or a budget: exactly one of them must be given.
pub fn select_stop_rule(changes: bool, penalty: bool, budget: bool) -> (r: Result<StopRule, Error>)
    ensures
        r == (if changes && !penalty && !budget {
            Ok(StopRule::Changes)
        } else if !changes && penalty && !budget {
            Ok(StopRule::Penalty)
        } else if !changes && !penalty && budget {
            Ok(StopRule::Budget)
        } else {
            Err(Error::InvalidStoppingRules)
        }),
{
    if changes && !penalty && !budget {
        Ok(StopRule::Changes)
    } else if !changes && penalty && !budget {
        Ok(StopRule::Penalty)
    } else if !changes && !penalty && budget {
        Ok(StopRule::Budget)
    } else {
        Err(Error::InvalidStoppingRules)
    }
}

/// The refusal of a stopping rule by the detector named `detector`.
pub fn unsupported_stop(detector: &'static str, rule: StopRule) -> (e: Error)
    ensures
        e matches Error::UnsupportedStoppingRule { detector: d, rule: name } && d == detector
            && name@ == match rule {
            StopRule::Changes => "changes"@,
            StopRule::Penalty => "penalty"@,
            StopRule::Budget => "budget"@,
        },
{
    Error::UnsupportedStoppingRule { detector, rule: rule.name() }
}

/// Which stopping rules a detector accepts.
#[derive(Clone, Copy, Debug, Default, PartialEq, Eq, Structural)]
pub struct DetectorCapabilities {
    pub changes: bool,
    pub penalty: bool,
    pub budget: bool,
}

impl DetectorCapabilities {
    pub fn changes_only() -> (r: Self)
        ensures
            r == (DetectorCapabilities { changes: true, penalty: false, budget: false }),
    {
        DetectorCapabilities { changes: true, penalty: false, budget: false }
    }

    pub fn penalty_only() -> (r: Self)
        ensures
            r == (DetectorCapabilities { changes: false, penalty: true, budget: false }),
    {
        DetectorCapabilities { changes: false, penalty: true, budget: false }
    }

    pub fn all_stops() -> (r: Self)
        ensures
            r == (DetectorCapabilities { changes: true, penalty: true, budget: true }),
    {
        DetectorCapabilities { changes: true, penalty: true, budget: true }
    }

    pub fn supports(self, rule: StopRule) -> (r: bool)
        ensures
            r == match rule {
                StopRule::Changes => self.changes,
                StopRule::Penalty => self.penalty,
                StopRule::Budget => self.budget,
            },
    {
        match rule {
            StopRule::Changes => self.changes,
            StopRule::Penalty => self.penalty,
            StopRule::Budget => self.budget,
        }
    }
}

// ---------------------------------------------------------------------------
// Validation
// ---------------------------------------------------------------------------

pub fn validate_min_size(min_size: usize) -> (r: Result<(), Error>)
    ensures
        r is Ok <==> min_size > 0,
        r matches Err(e) ==> e == (Error::InvalidMinSize { value: min_size }),
{
    if min_size == 0 {
        return Err(Error::InvalidMinSize { value: min_size });
    }
    Ok(())
}

pub fn validate_jump(jump: usize) -> (r: Result<(), Error>)
    ensures
        r is Ok <==> jump > 0,
        r matches Err(e) ==> e == (Error::InvalidJump { value: jump }),
{
    if jump == 0 {
        return Err(Error::InvalidJump { value: jump });
    }
    Ok(())
}

/// Checks that `segment` is a nonempty half-open range inside `[0, n_samples)`
/// of at least `min_size` samples.
pub fn validate_segment(segment: Range<usize>, n_samples: usize, min_size: usize) -> (r: Result<
    (),
    Error,
>)
    ensures
        r is Ok <==> (min_size > 0 && segment.start < segment.end && segment.end <= n_samples
            && segment.end - segment.start >= min_size),
        match r {
            Ok(()) => segment_error(segment.start, segment.end, n_samples, min_size) is None,
            Err(e) => segment_error(segment.start, segment.end, n_samples, min_size) == Some(e),
        },
{
    validate_min_size(min_size)?;
    if segment.start >= segment.end || segment.end > n_samples {
        return Err(Error::InvalidRange { start: segment.start, end: segment.end, n_samples });
    }
    let length = segment.end - segment.start;
    if length < min_size {
        return Err(
            Error::SegmentTooShort {
                start: segment.start,
                end: segment.end,
                length,
                minimum: min_size,
            },
        );
    }
    Ok(())
}

/// Checks that `breakpoints` is a valid segmentation of `n_samples` samples:
/// nonempty, strictly increasing, ending at `n_samples`, and with every
/// segment at least `min_size` long. The first violation is reported.
pub fn validate_breakpoints(breakpoints: &[usize], n_samples: usize, min_size: usize) -> (r:
    Result<(), Error>)
    ensures
        r is Ok <==> (min_size > 0 && valid_breakpoints(
            breakpoints@,
            n_samples as int,
            min_size as int,
        )),
        match r {
            Ok(()) => breakpoints_error(breakpoints@, n_samples, min_size) is None,
            Err(e) => breakpoints_error(breakpoints@, n_samples, min_size) == Some(e),
        },
{
    proof {
        lemma_breakpoints_error_iff_invalid(breakpoints@, n_samples, min_size);
    }
    validate_min_size(min_size)?;
    if breakpoints.len() == 0 {
        return Err(Error::EmptyBreakpoints);
    }
    let mut start: usize = 0;
    let mut position: usize = 0;
    while position < breakpoints.len()
        invariant
            0 <= position <= breakpoints@.len(),
            breakpoints@.len() > 0,
            min_size > 0,
            start as int == segment_start(breakpoints@, position as int),
            breakpoints_error_from(breakpoints@, 0, n_samples, min_size) == breakpoints_error_from(
                breakpoints@,
                position as int,
                n_samples,
                min_size,
            ),
        decreases breakpoints@.len() - position,
    {
        let end = breakpoints[position];
        if end <= start || end > n_samples {
            return Err(Error::InvalidBreakpoint { position, value: end, n_samples });
        }
        let checked = validate_segment(start..end, n_samples, min_size);
        if let Err(e) = checked {
            return Err(e);
        }
        start = end;
        position = position + 1;
    }
    if start != n_samples {
        return Err(Error::MissingTerminalBreakpoint { actual: start, n_samples });
    }
    Ok(())
}

/// `left < right` in the lexicographic order of breakpoint sequences.
pub fn lexicographically_smaller(left: &[usize], right: &[usize]) -> (r: bool)
    ensures
        r == lex_less(left@, right@),
{
    let mut index: usize = 0;
    assert(left@.subrange(0, left@.len() as int) =~= left@);
    assert(right@.subrange(0, right@.len() as int) =~= right@);
    while index < left.len() && index < right.len()
        invariant
            0 <= index <= left@.len(),
            index <= right@.len(),
            lex_less(left@, right@) == lex_less(
                left@.subrange(index as int, left@.len() as int),
                right@.subrange(index as int, right@.len() as int),
            ),
        decreases left@.len() - index,
    {
        let a = left[index];
        let b = right[index];
        proof {
            let ls = left@.subrange(index as int, left@.len() as int);
            let rs = right@.subrange(index as int, right@.len() as int);
            assert(ls.drop_first() =~= left@.subrange(index + 1, left@.len() as int));
            assert(rs.drop_first() =~= right@.subrange(index + 1, right@.len() as int));
        }
        if a != b {
            return a < b;
        }
        index = index + 1;
    }
    proof {
        let ls = left@.subrange(index as int, left@.len() as int);
        let rs = right@.subrange(index as int, right@.len() as int);
        assert(ls.len() == 0 || rs.len() == 0);
    }
    index == left.len() && index < right.len()
}

// ---------------------------------------------------------------------------
// Laws of the lexicographic tie-breaking order
// ---------------------------------------------------------------------------

/// No breakpoint sequence is smaller than itself.
pub proof fn lemma_lex_less_irreflexive(a: Seq<usize>)
    ensures
        !lex_less(a, a),
    decreases a.len(),
{
    if a.len() > 0 {
        lemma_lex_less_irreflexive(a.drop_first());
    }
}

/// Of two different breakpoint sequences exactly one is smaller, so a tie is
/// always resolved and the winner does not depend on the order of comparison.
pub proof fn lemma_lex_less_total(a: Seq<usize>, b: Seq<usize>)
    ensures
        a != b ==> (lex_less(a, b) != lex_less(b, a)),
    decreases a.len(),
{
    if a.len() == 0 && b.len() == 0 {
        assert(a =~= b);
    } else if a.len() > 0 && b.len() > 0 && a[0] == b[0] {
        let ta = a.drop_first();
        let tb = b.drop_first();
        lemma_lex_less_total(ta, tb);
        assert(lex_less(a, b) == lex_less(ta, tb));
        assert(lex_less(b, a) == lex_less(tb, ta));
        if ta == tb {
            assert(a =~= seq![a[0]] + ta);
            assert(b =~= seq![b[0]] + tb);
        }
    }
}

/// The tie-breaking order is transitive.
pub proof fn lemma_lex_less_transitive(a: Seq<usize>, b: Seq<usize>, c: Seq<usize>)
    requires
        lex_less(a, b),
        lex_less(b, c),
    ensures
        lex_less(a, c),
    decreases a.len(),
{
    if a.len() > 0 && b.len() > 0 && c.len() > 0 && a[0] == b[0] && b[0] == c[0] {
        lemma_lex_less_transitive(a.drop_first(), b.drop_first(), c.drop_first());
    }
}

} // verus!
