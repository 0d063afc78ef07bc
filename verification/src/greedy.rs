use vstd::prelude::*;

use crate::error::Error;
use crate::grid::strictly_increasing;
use crate::segmentation::{segment_start, valid_breakpoints, DetectorCapabilities, SearchGrid};

verus! {

// ---------------------------------------------------------------------------
// Detectors
// ---------------------------------------------------------------------------

/// Greedy binary segmentation: repeatedly splits the segment whose best
/// split lowers the cost most.
#[derive(Clone, Copy, Debug, PartialEq, Eq)]
pub struct Binseg {
    grid: SearchGrid,
}

/// Bottom-up segmentation: starts from the finest grid partition and merges
/// neighbouring segments.
#[derive(Clone, Copy, Debug, PartialEq, Eq)]
pub struct BottomUp {
    grid: SearchGrid,
}

/// Window-based segmentation: breakpoints at the peaks of a local
/// discrepancy score computed over a sliding window.
#[derive(Clone, Copy, Debug, PartialEq, Eq)]
pub struct Window {
    grid: SearchGrid,
    width: usize,
}

impl Binseg {
    #[verifier::type_invariant]
    spec fn inv(self) -> bool {
        self.grid.wf()
    }

    pub closed spec fn spec_grid(self) -> SearchGrid {
        self.grid
    }

    pub fn new(min_size: usize, jump: usize) -> (r: Result<Self, Error>)
        ensures
            match r {
                Ok(d) => min_size > 0 && jump > 0 && d.spec_grid() == (SearchGrid {
                    min_size,
                    jump,
                }),
                Err(e) => if min_size == 0 {
                    e == (Error::InvalidMinSize { value: min_size })
                } else {
                    jump == 0 && e == (Error::InvalidJump { value: jump })
                },
            },
    {
        let grid = SearchGrid::new(min_size, jump)?;
        Ok(Self { grid })
    }

    pub fn grid(self) -> (r: SearchGrid)
        ensures
            r == self.spec_grid(),
            r.wf(),
    {
        proof {
            use_type_invariant(&self);
        }
        self.grid
    }

    pub fn capabilities(&self) -> (r: DetectorCapabilities)
        ensures
            r == (DetectorCapabilities { changes: true, penalty: true, budget: true }),
    {
        DetectorCapabilities::all_stops()
    }
}

impl BottomUp {
    #[verifier::type_invariant]
    spec fn inv(self) -> bool {
        self.grid.wf()
    }

    pub closed spec fn spec_grid(self) -> SearchGrid {
        self.grid
    }

    pub fn new(min_size: usize, jump: usize) -> (r: Result<Self, Error>)
        ensures
            match r {
                Ok(d) => min_size > 0 && jump > 0 && d.spec_grid() == (SearchGrid {
                    min_size,
                    jump,
                }),
                Err(e) => if min_size == 0 {
                    e == (Error::InvalidMinSize { value: min_size })
                } else {
                    jump == 0 && e == (Error::InvalidJump { value: jump })
                },
            },
    {
        let grid = SearchGrid::new(min_size, jump)?;
        Ok(Self { grid })
    }

    pub fn grid(self) -> (r: SearchGrid)
        ensures
            r == self.spec_grid(),
            r.wf(),
    {
        proof {
            use_type_invariant(&self);
        }
        self.grid
    }

    pub fn capabilities(&self) -> (r: DetectorCapabilities)
        ensures
            r == (DetectorCapabilities { changes: true, penalty: true, budget: true }),
    {
        DetectorCapabilities::all_stops()
    }
}

impl Window {
    #[verifier::type_invariant]
    spec fn inv(self) -> bool {
        self.grid.wf() && self.width % 2 == 0 && self.width >= 2 * self.grid.min_size
    }

    pub closed spec fn spec_grid(self) -> SearchGrid {
        self.grid
    }

    pub closed spec fn spec_width(self) -> usize {
        self.width
    }

    /// A detector with a window of `width` samples, rounded down to an even
    /// number; the window must hold two segments of `min_size` samples.
    pub fn new(width: usize, min_size: usize, jump: usize) -> (r: Result<Self, Error>)
        requires
            min_size <= usize::MAX / 2,
        ensures
            ({
                let even = 2 * (width / 2);
                match r {
                    Ok(d) => min_size > 0 && jump > 0 && even >= 2 * min_size && d.spec_grid() == (
                    SearchGrid { min_size, jump }) && d.spec_width() == even,
                    Err(e) => if min_size == 0 {
                        e == (Error::InvalidMinSize { value: min_size })
                    } else if jump == 0 {
                        e == (Error::InvalidJump { value: jump })
                    } else {
                        even < 2 * min_size && e == (Error::InvalidRange {
                            start: 0,
                            end: even as usize,
                            n_samples: (2 * min_size) as usize,
                        })
                    },
                }
            }),
    {
        let grid = SearchGrid::new(min_size, jump)?;
        let width = 2 * (width / 2);
        if width < 2 * min_size {
            return Err(Error::InvalidRange { start: 0, end: width, n_samples: 2 * min_size });
        }
        Ok(Self { grid, width })
    }

    pub fn grid(self) -> (r: SearchGrid)
        ensures
            r == self.spec_grid(),
            r.wf(),
    {
        proof {
            use_type_invariant(&self);
        }
        self.grid
    }

    pub fn width(self) -> (r: usize)
        ensures
            r == self.spec_width(),
            r % 2 == 0,
            r >= 2 * self.spec_grid().min_size,
    {
        proof {
            use_type_invariant(&self);
        }
        self.width
    }

    pub fn capabilities(&self) -> (r: DetectorCapabilities)
        ensures
            r == (DetectorCapabilities { changes: true, penalty: true, budget: true }),
    {
        DetectorCapabilities::all_stops()
    }

    /// Candidate window centres: the multiples of `jump` below `n_samples`
    /// around which a whole window fits inside the signal.
    pub fn centers(&self, n_samples: usize) -> (r: Vec<usize>)
        ensures
            strictly_increasing(r@),
            forall|i: int|
                0 <= i < r@.len() ==> window_center(
                    #[trigger] r@[i] as int,
                    n_samples as int,
                    self.spec_width() as int / 2,
                    self.spec_grid().jump as int,
                ),
            forall|c: int|
                #[trigger] window_center(
                    c,
                    n_samples as int,
                    self.spec_width() as int / 2,
                    self.spec_grid().jump as int,
                ) ==> r@.contains(c as usize),
    {
        proof {
            use_type_invariant(self);
        }
        let half = self.width / 2;
        let jump = self.grid.jump;
        let mut centers: Vec<usize> = Vec::new();
        let mut center: usize = 0;
        while center < n_samples
            invariant_except_break
                forall|i: int| 0 <= i < centers@.len() ==> #[trigger] centers@[i] < center,
            invariant
                jump == self.spec_grid().jump,
                jump > 0,
                half == self.spec_width() / 2,
                center as int % jump as int == 0,
                strictly_increasing(centers@),
                forall|i: int|
                    0 <= i < centers@.len() ==> window_center(
                        #[trigger] centers@[i] as int,
                        n_samples as int,
                        half as int,
                        jump as int,
                    ),
                forall|c: int|
                    0 <= c < center && #[trigger] window_center(c, n_samples as int, half as int, jump as int)
                        ==> centers@.contains(c as usize),
            ensures
                strictly_increasing(centers@),
                forall|i: int|
                    0 <= i < centers@.len() ==> window_center(
                        #[trigger] centers@[i] as int,
                        n_samples as int,
                        half as int,
                        jump as int,
                    ),
                forall|c: int|
                    #[trigger] window_center(c, n_samples as int, half as int, jump as int)
                        ==> centers@.contains(c as usize),
            decreases usize::MAX - center,
        {
            let ghost before = centers@;
            if center >= half && n_samples - center >= half {
                centers.push(center);
                proof {
                    assert(centers@.last() == center);
                    assert forall|c: int|
                        0 <= c < center && #[trigger] window_center(
                            c,
                            n_samples as int,
                            half as int,
                            jump as int,
                        ) implies centers@.contains(c as usize) by {
                        assert(before.contains(c as usize));
                        let k = choose|k: int| 0 <= k < before.len() && before[k] == c as usize;
                        assert(centers@[k] == c as usize);
                    }
                }
            }
            proof {
                lemma_no_multiple_between(center as int, jump as int);
                assert(centers@.len() > 0 ==> centers@.last() == center || centers@ == before);
            }
            match center.checked_add(jump) {
                Some(next) => {
                    proof {
                        assert forall|c: int|
                            0 <= c < next && #[trigger] window_center(
                                c,
                                n_samples as int,
                                half as int,
                                jump as int,
                            ) implies centers@.contains(c as usize) by {
                            if c == center {
                                assert(centers@.last() == center);
                            } else if c < center {
                                assert(before.contains(c as usize));
                                let k = choose|k: int|
                                    0 <= k < before.len() && before[k] == c as usize;
                                assert(centers@[k] == c as usize);
                            }
                        }
                        vstd::arithmetic::div_mod::lemma_mod_adds(
                            center as int,
                            jump as int,
                            jump as int,
                        );
                        vstd::arithmetic::div_mod::lemma_mod_self_0(jump as int);
                    }
                    center = next;
                },
                None => {
                    proof {
                        assert forall|c: int|
                            #[trigger] window_center(
                                c,
                                n_samples as int,
                                half as int,
                                jump as int,
                            ) implies centers@.contains(c as usize) by {
                            if c == center {
                                assert(centers@.last() == center);
                            } else if c < center {
                                assert(before.contains(c as usize));
                                let k = choose|k: int|
                                    0 <= k < before.len() && before[k] == c as usize;
                                assert(centers@[k] == c as usize);
                            }
                        }
                    }
                    break ;
                },
            }
        }
        centers
    }

    /// Half-width, in centres, of the neighbourhood over which a score must
    /// be a strict maximum to count as a peak.
    pub fn peak_order(&self) -> (r: usize)
        ensures
            r >= 1,
            r == ({
                let w = if self.spec_width() >= 2 * self.spec_grid().min_size {
                    self.spec_width() as int
                } else {
                    2 * self.spec_grid().min_size
                };
                let o = w / (2 * self.spec_grid().jump as int);
                if o >= 1 {
                    o
                } else {
                    1
                }
            }),
    {
        proof {
            use_type_invariant(self);
        }
        let minimum_width = 2 * self.grid.min_size;
        let span = if self.width >= minimum_width {
            self.width
        } else {
            minimum_width
        };
        let twice_jump = match self.grid.jump.checked_mul(2) {
            Some(value) => value,
            None => {
                proof {
                    let j = self.grid.jump as int;
                    let w = span as int;
                    assert(w / (2 * j) == 0) by (nonlinear_arith)
                        requires
                            2 * j > usize::MAX,
                            0 <= w <= usize::MAX,
                    ;
                }
                return 1;
            },
        };
        let order = span / twice_jump;
        if order >= 1 {
            order
        } else {
            1
        }
    }
}

/// `c` is a multiple of `jump` below `n_samples` with `half` samples on each
/// side inside the signal.
pub open spec fn window_center(c: int, n_samples: int, half: int, jump: int) -> bool {
    &&& 0 <= c < n_samples
    &&& c % jump == 0
    &&& c >= half
    &&& c + half <= n_samples
}

/// The neighbourhood `[from, to)` of centre `index` among `count` centres.
pub fn peak_neighborhood(index: usize, order: usize, count: usize) -> (r: (usize, usize))
    requires
        index < count,
    ensures
        r.0 == (if index >= order {
            index - order
        } else {
            0
        }),
        r.1 == (if index + order + 1 <= count {
            index + order + 1
        } else {
            count as int
        }),
        r.0 <= index < r.1 <= count,
{
    let from = index.saturating_sub(order);
    let to = if order < count - index {
        index + order + 1
    } else {
        count
    };
    (from, to)
}

// ---------------------------------------------------------------------------
// Grid splits of a segment
// ---------------------------------------------------------------------------

/// `x` is a split of `[start, end)` on the grid that leaves two segments of
/// at least `min_size` samples.
pub open spec fn admissible_split(x: int, start: int, end: int, min_size: int, jump: int) -> bool {
    &&& x % jump == 0
    &&& start < x < end
    &&& x - start >= min_size
    &&& end - x >= min_size
}

proof fn lemma_no_multiple_between(m: int, jump: int)
    requires
        jump > 0,
        m % jump == 0,
    ensures
        forall|x: int| #![trigger x % jump] m < x < m + jump ==> x % jump != 0,
{
    assert forall|x: int| #![trigger x % jump] m < x < m + jump implies x % jump != 0 by {
        vstd::arithmetic::div_mod::lemma_fundamental_div_mod(m, jump);
        vstd::arithmetic::div_mod::lemma_fundamental_div_mod(x, jump);
        if x % jump == 0 {
            let qm = m / jump;
            let qx = x / jump;
            assert(false) by (nonlinear_arith)
                requires
                    m == jump * qm,
                    x == jump * qx,
                    m < x < m + jump,
                    jump > 0,
            ;
        }
    }
}

/// The first multiple of `jump` strictly after `start`, saturating at
/// `usize::MAX`.
pub fn next_grid_split(start: usize, jump: usize) -> (r: usize)
    requires
        jump > 0,
    ensures
        r > start || r == usize::MAX,
        r < usize::MAX ==> r as int % jump as int == 0,
        forall|x: int| #![trigger x % (jump as int)] start < x < r ==> x % (jump as int) != 0,
{
    let remainder = start % jump;
    let mut split = start.saturating_add(jump - remainder);
    proof {
        vstd::arithmetic::div_mod::lemma_fundamental_div_mod(start as int, jump as int);
        vstd::arithmetic::div_mod::lemma_mod_bound(start as int, jump as int);
        let q = start as int / jump as int;
        assert(q * jump == jump * q) by (nonlinear_arith);
        let m = q * jump;
        vstd::arithmetic::div_mod::lemma_mod_multiples_basic(q, jump as int);
        lemma_no_multiple_between(m, jump as int);
        if start + (jump - remainder) <= usize::MAX {
            vstd::arithmetic::div_mod::lemma_mod_multiples_basic(q + 1, jump as int);
            assert((q + 1) * jump == q * jump + jump) by (nonlinear_arith);
        }
    }
    if split == start {
        split = split.saturating_add(jump);
    }
    split
}

/// All admissible grid splits of `[start, end)`, in increasing order.
pub fn split_positions(start: usize, end: usize, min_size: usize, jump: usize) -> (r: Vec<usize>)
    requires
        jump > 0,
    ensures
        strictly_increasing(r@),
        forall|i: int|
            0 <= i < r@.len() ==> admissible_split(
                #[trigger] r@[i] as int,
                start as int,
                end as int,
                min_size as int,
                jump as int,
            ),
        forall|x: int|
            #[trigger] admissible_split(x, start as int, end as int, min_size as int, jump as int)
                ==> r@.contains(x as usize),
{
    let mut splits: Vec<usize> = Vec::new();
    let mut split = next_grid_split(start, jump);
    while split < end
        invariant_except_break
            forall|i: int| 0 <= i < splits@.len() ==> #[trigger] splits@[i] < split,
        invariant
            jump > 0,
            split > start || split == usize::MAX,
            split < usize::MAX ==> split as int % jump as int == 0,
            strictly_increasing(splits@),
            forall|i: int|
                0 <= i < splits@.len() ==> admissible_split(
                    #[trigger] splits@[i] as int,
                    start as int,
                    end as int,
                    min_size as int,
                    jump as int,
                ),
            forall|x: int|
                x < split && #[trigger] admissible_split(
                    x,
                    start as int,
                    end as int,
                    min_size as int,
                    jump as int,
                ) ==> splits@.contains(x as usize),
        ensures
            strictly_increasing(splits@),
            forall|i: int|
                0 <= i < splits@.len() ==> admissible_split(
                    #[trigger] splits@[i] as int,
                    start as int,
                    end as int,
                    min_size as int,
                    jump as int,
                ),
            forall|x: int|
                #[trigger] admissible_split(x, start as int, end as int, min_size as int, jump as int)
                    ==> splits@.contains(x as usize),
        decreases usize::MAX - split,
    {
        let ghost before = splits@;
        if split - start >= min_size && end - split >= min_size {
            splits.push(split);
        }
        proof {
            lemma_no_multiple_between(split as int, jump as int);
            assert forall|x: int|
                x <= split && #[trigger] admissible_split(
                    x,
                    start as int,
                    end as int,
                    min_size as int,
                    jump as int,
                ) implies splits@.contains(x as usize) by {
                if x == split {
                    assert(splits@.last() == split);
                } else {
                    let k = choose|k: int| 0 <= k < before.len() && before[k] == x as usize;
                    assert(splits@[k] == x as usize);
                }
            }
        }
        match split.checked_add(jump) {
            Some(next) => {
                proof {
                    vstd::arithmetic::div_mod::lemma_mod_adds(
                        split as int,
                        jump as int,
                        jump as int,
                    );
                    vstd::arithmetic::div_mod::lemma_mod_self_0(jump as int);
                }
                split = next;
            },
            None => break ,
        }
    }
    splits
}

/// The admissible grid split of `[start, end)` closest to its midpoint, the
/// smaller one on a tie; `None` when the segment cannot be split.
pub fn nearest_split(start: usize, end: usize, min_size: usize, jump: usize) -> (r: Option<usize>)
    requires
        jump > 0,
        start <= end,
    ensures
        match r {
            Some(s) => admissible_split(
                s as int,
                start as int,
                end as int,
                min_size as int,
                jump as int,
            ) && forall|x: int|
                #[trigger] admissible_split(x, start as int, end as int, min_size as int, jump as int)
                    ==> midpoint_key_le(s as int, x, start as int, end as int),
            None => forall|x: int|
                !#[trigger] admissible_split(x, start as int, end as int, min_size as int, jump as int),
        },
{
    let splits = split_positions(start, end, min_size, jump);
    if splits.len() == 0 {
        proof {
            assert forall|x: int|
                !#[trigger] admissible_split(x, start as int, end as int, min_size as int, jump as int) by {
                if admissible_split(x, start as int, end as int, min_size as int, jump as int) {
                    assert(splits@.contains(x as usize));
                }
            }
        }
        return None;
    }
    let mut best = splits[0];
    let mut index: usize = 1;
    while index < splits.len()
        invariant
            1 <= index <= splits@.len(),
            splits@.contains(best),
            admissible_split(best as int, start as int, end as int, min_size as int, jump as int),
            forall|i: int|
                0 <= i < index ==> midpoint_key_le(
                    best as int,
                    #[trigger] splits@[i] as int,
                    start as int,
                    end as int,
                ),
            forall|i: int|
                0 <= i < splits@.len() ==> admissible_split(
                    #[trigger] splits@[i] as int,
                    start as int,
                    end as int,
                    min_size as int,
                    jump as int,
                ),
        decreases splits@.len() - index,
    {
        let candidate = splits[index];
        if midpoint_distance_less(candidate, best, start, end) {
            best = candidate;
        }
        index = index + 1;
    }
    proof {
        assert forall|x: int|
            #[trigger] admissible_split(x, start as int, end as int, min_size as int, jump as int)
                implies midpoint_key_le(best as int, x, start as int, end as int) by {
            assert(splits@.contains(x as usize));
            let k = choose|k: int| 0 <= k < splits@.len() && splits@[k] == x as usize;
            assert(midpoint_key_le(best as int, splits@[k] as int, start as int, end as int));
        }
    }
    Some(best)
}

/// `x` is the admissible grid split of `[start, end)` nearest to its
/// midpoint, the smaller one on a tie.
pub open spec fn is_nearest_split(x: int, start: int, end: int, min_size: int, jump: int) -> bool {
    &&& admissible_split(x, start, end, min_size, jump)
    &&& forall|y: int|
        #[trigger] admissible_split(y, start, end, min_size, jump) ==> midpoint_key_le(
            x,
            y,
            start,
            end,
        )
}

/// The split that `nearest_split` chooses, `None` when there is none.
pub open spec fn nearest_split_of(start: int, end: int, min_size: int, jump: int) -> Option<int> {
    if exists|x: int| is_nearest_split(x, start, end, min_size, jump) {
        Some(choose|x: int| is_nearest_split(x, start, end, min_size, jump))
    } else {
        None
    }
}

/// The leaves that bottom-up segmentation starts from on `[start, end)`: a
/// segment with a nearest split is replaced by the leaves of its two
/// halves, and otherwise stays a leaf.
pub open spec fn leaves_of(start: int, end: int, min_size: int, jump: int) -> Seq<(usize, usize)>
    decreases end - start,
{
    match nearest_split_of(start, end, min_size, jump) {
        Some(split) => if start < split < end {
            leaves_of(start, split, min_size, jump) + leaves_of(split, end, min_size, jump)
        } else {
            seq![(start as usize, end as usize)]
        },
        None => seq![(start as usize, end as usize)],
    }
}

/// At most one split is nearest to the midpoint.
proof fn lemma_nearest_split_unique(a: int, b: int, start: int, end: int, min_size: int, jump: int)
    requires
        is_nearest_split(a, start, end, min_size, jump),
        is_nearest_split(b, start, end, min_size, jump),
    ensures
        a == b,
{
    assert(admissible_split(b, start, end, min_size, jump));
    assert(admissible_split(a, start, end, min_size, jump));
    assert(midpoint_key_le(a, b, start, end));
    assert(midpoint_key_le(b, a, start, end));
}

/// Twice the distance of `x` from the midpoint of `[start, end)`.
pub open spec fn twice_midpoint_distance(x: int, start: int, end: int) -> int {
    let d = 2 * x - start - end;
    if d >= 0 {
        d
    } else {
        -d
    }
}

/// `a` is at least as close to the midpoint as `b`, or equally close and
/// not larger.
pub open spec fn midpoint_key_le(a: int, b: int, start: int, end: int) -> bool {
    let da = twice_midpoint_distance(a, start, end);
    let db = twice_midpoint_distance(b, start, end);
    da < db || (da == db && a <= b)
}

fn midpoint_distance_less(a: usize, b: usize, start: usize, end: usize) -> (r: bool)
    ensures
        r == !midpoint_key_le(b as int, a as int, start as int, end as int),
{
    let center = start as u128 + end as u128;
    let twice_a = 2 * (a as u128);
    let twice_b = 2 * (b as u128);
    let da = if twice_a >= center {
        twice_a - center
    } else {
        center - twice_a
    };
    let db = if twice_b >= center {
        twice_b - center
    } else {
        center - twice_b
    };
    da < db || (da == db && a < b)
}

/// The finest partition that bottom-up segmentation starts from: segments
/// are split at the admissible grid split nearest to their midpoint until
/// none can be split further.
pub fn initial_leaves(n_samples: usize, min_size: usize, jump: usize) -> (r: Vec<(usize, usize)>)
    requires
        jump > 0,
    ensures
        leaf_cover(r@, 0, n_samples as int),
        forall|i: int|
            0 <= i < r@.len() ==> forall|x: int|
                !admissible_split(
                    x,
                    #[trigger] r@[i].0 as int,
                    r@[i].1 as int,
                    min_size as int,
                    jump as int,
                ),
        n_samples >= min_size ==> forall|i: int|
            0 <= i < r@.len() ==> #[trigger] r@[i].1 - r@[i].0 >= min_size,
        r@ == leaves_of(0, n_samples as int, min_size as int, jump as int),
{
    let mut leaves: Vec<(usize, usize)> = Vec::new();
    collect_leaves(0, n_samples, min_size, jump, &mut leaves);
    proof {
        assert(leaves@.subrange(0, leaves@.len() as int) =~= leaves@);
    }
    leaves
}

/// The segments `s` are contiguous and cover `[start, end)`.
pub open spec fn leaf_cover(s: Seq<(usize, usize)>, start: int, end: int) -> bool {
    &&& s.len() >= 1
    &&& s[0].0 == start
    &&& s.last().1 == end
    &&& forall|i: int| 0 <= i < s.len() ==> #[trigger] s[i].0 <= s[i].1
    &&& forall|i: int| 0 <= i < s.len() - 1 ==> #[trigger] s[i].1 == s[i + 1].0
}

fn collect_leaves(
    start: usize,
    end: usize,
    min_size: usize,
    jump: usize,
    leaves: &mut Vec<(usize, usize)>,
)
    requires
        jump > 0,
        start <= end,
    ensures
        final(leaves)@.len() > old(leaves)@.len(),
        final(leaves)@.subrange(0, old(leaves)@.len() as int) == old(leaves)@,
        leaf_cover(
            final(leaves)@.subrange(old(leaves)@.len() as int, final(leaves)@.len() as int),
            start as int,
            end as int,
        ),
        forall|i: int|
            old(leaves)@.len() <= i < final(leaves)@.len() ==> forall|x: int|
                !admissible_split(
                    x,
                    #[trigger] final(leaves)@[i].0 as int,
                    final(leaves)@[i].1 as int,
                    min_size as int,
                    jump as int,
                ),
        end - start >= min_size ==> forall|i: int|
            old(leaves)@.len() <= i < final(leaves)@.len() ==> #[trigger] final(leaves)@[i].1
                - final(leaves)@[i].0 >= min_size,
        final(leaves)@.subrange(old(leaves)@.len() as int, final(leaves)@.len() as int)
            == leaves_of(start as int, end as int, min_size as int, jump as int),
    decreases end - start,
{
    let ghost base = leaves@;
    match nearest_split(start, end, min_size, jump) {
        Some(split) => {
            proof {
                let (a, b, m, j) = (start as int, end as int, min_size as int, jump as int);
                assert(is_nearest_split(split as int, a, b, m, j));
                let c = choose|x: int| is_nearest_split(x, a, b, m, j);
                lemma_nearest_split_unique(c, split as int, a, b, m, j);
                assert(nearest_split_of(a, b, m, j) == Some(split as int));
                assert(leaves_of(a, b, m, j) == leaves_of(a, split as int, m, j) + leaves_of(
                    split as int,
                    b,
                    m,
                    j,
                ));
            }
            collect_leaves(start, split, min_size, jump, leaves);
            let ghost middle = leaves@;
            collect_leaves(split, end, min_size, jump, leaves);
            proof {
                let all = leaves@;
                let left = middle.subrange(base.len() as int, middle.len() as int);
                let right = all.subrange(middle.len() as int, all.len() as int);
                let whole = all.subrange(base.len() as int, all.len() as int);
                assert(all.subrange(0, middle.len() as int) == middle);
                assert(whole =~= left + right);
                assert(all.subrange(0, base.len() as int) =~= middle.subrange(
                    0,
                    base.len() as int,
                ));
                assert forall|i: int| 0 <= i < whole.len() - 1 implies #[trigger] whole[i].1
                    == whole[i + 1].0 by {
                    if i < left.len() - 1 {
                        assert(whole[i] == left[i] && whole[i + 1] == left[i + 1]);
                    } else if i == left.len() - 1 {
                        assert(whole[i] == left.last());
                        assert(whole[i + 1] == right[0]);
                    } else {
                        assert(whole[i] == right[i - left.len()]);
                        assert(whole[i + 1] == right[i + 1 - left.len()]);
                    }
                }
                assert forall|i: int| 0 <= i < whole.len() implies #[trigger] whole[i].0
                    <= whole[i].1 by {
                    if i < left.len() {
                        assert(whole[i] == left[i]);
                    } else {
                        assert(whole[i] == right[i - left.len()]);
                    }
                }
                assert forall|i: int| base.len() <= i < all.len() implies forall|x: int|
                    !admissible_split(
                        x,
                        #[trigger] all[i].0 as int,
                        all[i].1 as int,
                        min_size as int,
                        jump as int,
                    ) by {
                    if i < middle.len() {
                        assert(all[i] == middle[i]);
                    }
                }
                if end - start >= min_size {
                    assert forall|i: int| base.len() <= i < all.len() implies #[trigger] all[i].1
                        - all[i].0 >= min_size by {
                        if i < middle.len() {
                            assert(all[i] == middle[i]);
                        }
                    }
                }
            }
        },
        None => {
            proof {
                let (a, b, m, j) = (start as int, end as int, min_size as int, jump as int);
                assert(!exists|x: int| is_nearest_split(x, a, b, m, j));
                assert(leaves_of(a, b, m, j) == seq![(start, end)]);
            }
            leaves.push((start, end));
            proof {
                let all = leaves@;
                assert(all.subrange(0, base.len() as int) =~= base);
                assert(all.subrange(base.len() as int, all.len() as int) =~= seq![(start, end)]);
            }
        },
    }
}

// ---------------------------------------------------------------------------
// Partition refined by splits
// ---------------------------------------------------------------------------

/// A segmentation of `[0, n_samples)` into segments of at least `min_size`
/// samples, refined one split at a time.
#[derive(Clone, Debug)]
pub struct Partition {
    n_samples: usize,
    min_size: usize,
    breakpoints: Vec<usize>,
}

impl Partition {
    pub closed spec fn spec_breakpoints(self) -> Seq<usize> {
        self.breakpoints@
    }

    pub closed spec fn spec_n_samples(self) -> usize {
        self.n_samples
    }

    pub closed spec fn spec_min_size(self) -> usize {
        self.min_size
    }

    pub closed spec fn wf(self) -> bool {
        self.min_size > 0 && valid_breakpoints(
            self.breakpoints@,
            self.n_samples as int,
            self.min_size as int,
        )
    }

    /// The trivial partition with a single segment.
    pub fn new(n_samples: usize, min_size: usize) -> (r: Self)
        requires
            0 < min_size <= n_samples,
        ensures
            r.wf(),
            r.spec_breakpoints() == seq![n_samples],
            r.spec_n_samples() == n_samples,
            r.spec_min_size() == min_size,
    {
        let mut breakpoints: Vec<usize> = Vec::new();
        breakpoints.push(n_samples);
        let p = Partition { n_samples, min_size, breakpoints };
        proof {
            assert(p.breakpoints@ =~= seq![n_samples]);
        }
        p
    }

    pub fn breakpoints(&self) -> (r: &[usize])
        ensures
            r@ == self.spec_breakpoints(),
    {
        self.breakpoints.as_slice()
    }

    pub fn n_changes(&self) -> (r: usize)
        requires
            self.wf(),
        ensures
            r == self.spec_breakpoints().len() - 1,
    {
        self.breakpoints.len() - 1
    }

    /// Index of the segment that contains `position`, with its bounds.
    pub fn locate(&self, position: usize) -> (r: (usize, usize, usize))
        requires
            self.wf(),
            position < self.spec_n_samples(),
        ensures
            r.0 < self.spec_breakpoints().len(),
            r.1 == segment_start(self.spec_breakpoints(), r.0 as int),
            r.2 == self.spec_breakpoints()[r.0 as int],
            r.1 <= position < r.2,
    {
        let ghost b = self.breakpoints@;
        let mut low: usize = 0;
        let mut high: usize = self.breakpoints.len() - 1;
        proof {
            lemma_increasing(b, self.n_samples as int, self.min_size as int);
        }
        while low < high
            invariant
                self.wf(),
                b == self.breakpoints@,
                low <= high < b.len(),
                position < b[high as int],
                low > 0 ==> b[low - 1] <= position,
                strictly_increasing(b),
            decreases high - low,
        {
            let middle = low + (high - low) / 2;
            if self.breakpoints[middle] <= position {
                low = middle + 1;
            } else {
                high = middle;
            }
        }
        let start = if low == 0 {
            0
        } else {
            self.breakpoints[low - 1]
        };
        (low, start, self.breakpoints[low])
    }

    /// `[start, end)` is one of the segments of the partition.
    pub fn contains_segment(&self, start: usize, end: usize) -> (r: bool)
        requires
            self.wf(),
        ensures
            r == exists|i: int|
                0 <= i < self.spec_breakpoints().len() && segment_start(self.spec_breakpoints(), i)
                    == start && #[trigger] self.spec_breakpoints()[i] == end,
    {
        proof {
            lemma_increasing(self.breakpoints@, self.n_samples as int, self.min_size as int);
        }
        if start >= self.n_samples {
            proof {
                let b = self.breakpoints@;
                assert forall|i: int| 0 <= i < b.len() implies !(segment_start(b, i) == start
                    && #[trigger] b[i] == end) by {
                    if i > 0 {
                        assert(b[i - 1] < b[i] <= self.n_samples);
                    }
                }
            }
            return false;
        }
        let (index, segment_begin, segment_end) = self.locate(start);
        proof {
            let b = self.breakpoints@;
            assert forall|i: int|
                0 <= i < b.len() && i != index implies !(segment_start(b, i) == start
                && #[trigger] b[i] == end) by {
                if i < index {
                    assert(b[i] <= segment_begin);
                    if i > 0 {
                        assert(b[i - 1] < b[i]);
                    }
                    assert(segment_start(b, i) < b[i]);
                } else {
                    assert(b[i - 1] >= b[index as int]);
                }
            }
        }
        segment_begin == start && segment_end == end
    }

    /// Splits the segment that contains `position` there, when both parts
    /// keep at least `min_size` samples; returns whether it did.
    pub fn try_split(&mut self, position: usize) -> (r: bool)
        requires
            old(self).wf(),
        ensures
            final(self).wf(),
            final(self).spec_n_samples() == old(self).spec_n_samples(),
            final(self).spec_min_size() == old(self).spec_min_size(),
            r ==> final(self).spec_breakpoints().len() == old(self).spec_breakpoints().len() + 1,
            r ==> final(self).spec_breakpoints().contains(position),
            r ==> forall|x: usize|
                old(self).spec_breakpoints().contains(x) ==> final(self).spec_breakpoints().contains(x),
            !r ==> final(self).spec_breakpoints() == old(self).spec_breakpoints(),
            r <==> (position < old(self).spec_n_samples() && exists|i: int|
                0 <= i < old(self).spec_breakpoints().len() && segment_start(
                    old(self).spec_breakpoints(),
                    i,
                ) + old(self).spec_min_size() <= position && position + old(self).spec_min_size()
                    <= #[trigger] old(self).spec_breakpoints()[i]),
    {
        let ghost b = self.breakpoints@;
        proof {
            lemma_increasing(b, self.n_samples as int, self.min_size as int);
        }
        if position >= self.n_samples {
            return false;
        }
        let (index, start, end) = self.locate(position);
        if position - start < self.min_size || end - position < self.min_size {
            proof {
                assert forall|i: int|
                    0 <= i < b.len() implies !(segment_start(b, i) + self.min_size <= position
                    && position + self.min_size <= #[trigger] b[i]) by {
                    if i < index {
                        if i > 0 {
                            assert(b[i - 1] < b[i]);
                        }
                        assert(b[i] <= start);
                    } else if i > index {
                        assert(b[i - 1] >= end);
                    }
                }
            }
            return false;
        }
        self.breakpoints.insert(index, position);
        proof {
            let nb = self.breakpoints@;
            assert(nb == b.insert(index as int, position));
            let n = self.n_samples as int;
            let m = self.min_size as int;
            assert forall|i: int|
                0 <= i < nb.len() implies #[trigger] segment_start(nb, i) + m <= nb[i] && nb[i]
                <= n by {
                if i < index {
                    assert(segment_start(b, i) + m <= b[i] && b[i] <= n);
                    assert(nb[i] == b[i]);
                    if i > 0 {
                        assert(nb[i - 1] == b[i - 1]);
                    }
                } else if i == index {
                    if i > 0 {
                        assert(nb[i - 1] == b[i - 1]);
                    }
                } else if i == index + 1 {
                    assert(segment_start(b, index as int) + m <= b[index as int] && b[index as int] <= n);
                    assert(nb[i] == b[index as int]);
                } else {
                    assert(segment_start(b, i - 1) + m <= b[i - 1] && b[i - 1] <= n);
                    assert(nb[i] == b[i - 1]);
                    assert(nb[i - 1] == b[i - 2]);
                }
            }
            assert(nb.last() == b.last());
            assert(nb[index as int] == position);
            assert forall|x: usize| b.contains(x) implies nb.contains(x) by {
                let k = choose|k: int| 0 <= k < b.len() && b[k] == x;
                if k < index {
                    assert(nb[k] == x);
                } else {
                    assert(nb[k + 1] == x);
                }
            }
        }
        true
    }
}

/// Breakpoints of a valid segmentation increase strictly.
pub proof fn lemma_increasing(b: Seq<usize>, n: int, min_size: int)
    requires
        min_size > 0,
        valid_breakpoints(b, n, min_size),
    ensures
        strictly_increasing(b),
{
    assert forall|i: int, j: int| 0 <= i < j < b.len() implies b[i] < b[j] by {
        lemma_increasing_step(b, n, min_size, i, j);
    }
}

proof fn lemma_increasing_step(b: Seq<usize>, n: int, min_size: int, i: int, j: int)
    requires
        min_size > 0,
        valid_breakpoints(b, n, min_size),
        0 <= i < j < b.len(),
    ensures
        b[i] < b[j],
    decreases j - i,
{
    assert(segment_start(b, j) + min_size <= b[j]);
    if j > i + 1 {
        lemma_increasing_step(b, n, min_size, i, j - 1);
    }
}

} // verus!
