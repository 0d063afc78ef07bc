use vstd::prelude::*;

use crate::error::Error;
use crate::greedy::lemma_increasing;
use crate::grid::strictly_increasing;
use crate::segmentation::{
    breakpoints_error, segment_start, valid_breakpoints, validate_breakpoints,
};

verus! {

// ---------------------------------------------------------------------------
// Shared validation
// ---------------------------------------------------------------------------

/// The error reported for a pair of segmentations that are to be compared:
/// an empty sequence, different signal lengths, or the first invalid
/// sequence (the reference first).
pub open spec fn pair_error(truth: Seq<usize>, prediction: Seq<usize>) -> Option<Error> {
    if truth.len() == 0 || prediction.len() == 0 {
        Some(Error::EmptyBreakpoints)
    } else if truth.last() != prediction.last() {
        Some(Error::BreakpointLengthMismatch { expected: truth.last(), actual: prediction.last() })
    } else if breakpoints_error(truth, truth.last(), 1) is Some {
        breakpoints_error(truth, truth.last(), 1)
    } else {
        breakpoints_error(prediction, prediction.last(), 1)
    }
}

/// Whether two breakpoint sequences are valid segmentations of one signal.
pub open spec fn comparable(truth: Seq<usize>, prediction: Seq<usize>) -> bool {
    truth.len() > 0 && prediction.len() > 0 && truth.last() == prediction.last()
        && valid_breakpoints(truth, truth.last() as int, 1) && valid_breakpoints(
        prediction,
        truth.last() as int,
        1,
    )
}

/// Checks that two breakpoint sequences describe segmentations of the same
/// signal, and returns its length.
pub fn validate_pair(truth: &[usize], prediction: &[usize]) -> (r: Result<usize, Error>)
    ensures
        r is Ok <==> comparable(truth@, prediction@),
        r is Ok <==> pair_error(truth@, prediction@) is None,
        match r {
            Ok(n) => truth@.len() > 0 && n == truth@.last() && valid_breakpoints(truth@, n as int, 1)
                && valid_breakpoints(prediction@, n as int, 1),
            Err(e) => pair_error(truth@, prediction@) == Some(e),
        },
{
    if truth.len() == 0 || prediction.len() == 0 {
        return Err(Error::EmptyBreakpoints);
    }
    let truth_n = truth[truth.len() - 1];
    let prediction_n = prediction[prediction.len() - 1];
    if truth_n != prediction_n {
        return Err(Error::BreakpointLengthMismatch { expected: truth_n, actual: prediction_n });
    }
    validate_breakpoints(truth, truth_n, 1)?;
    validate_breakpoints(prediction, prediction_n, 1)?;
    Ok(truth_n)
}

/// All breakpoints but the shared terminal sample: the change points.
fn change_points(b: &[usize]) -> (r: Vec<usize>)
    requires
        b@.len() > 0,
    ensures
        r@ == b@.drop_last(),
{
    let mut points: Vec<usize> = Vec::new();
    let mut index: usize = 0;
    while index < b.len() - 1
        invariant
            b@.len() > 0,
            index < b@.len(),
            points@ == b@.subrange(0, index as int),
        decreases b@.len() - index,
    {
        points.push(b[index]);
        index = index + 1;
        proof {
            assert(points@ =~= b@.subrange(0, index as int));
        }
    }
    proof {
        assert(points@ =~= b@.drop_last());
    }
    points
}

// ---------------------------------------------------------------------------
// Hausdorff distance
// ---------------------------------------------------------------------------

pub open spec fn distance(a: int, b: int) -> int {
    if a >= b {
        a - b
    } else {
        b - a
    }
}

/// Distance from `p` to the closest point of the nonempty `right`.
pub open spec fn min_distance(p: int, right: Seq<usize>) -> int
    decreases right.len(),
{
    if right.len() <= 1 {
        distance(p, right[0] as int)
    } else {
        let rest = min_distance(p, right.drop_last());
        let d = distance(p, right.last() as int);
        if d < rest {
            d
        } else {
            rest
        }
    }
}

/// Largest distance from a point of the nonempty `left` to `right`.
pub open spec fn max_min_distance(left: Seq<usize>, right: Seq<usize>) -> int
    decreases left.len(),
{
    if left.len() <= 1 {
        min_distance(left[0] as int, right)
    } else {
        let rest = max_min_distance(left.drop_last(), right);
        let d = min_distance(left.last() as int, right);
        if d > rest {
            d
        } else {
            rest
        }
    }
}

/// Directed Hausdorff distance from `left` to `right`; `fallback` when only
/// `right` is empty.
pub open spec fn directed_distance(left: Seq<usize>, right: Seq<usize>, fallback: int) -> int {
    if left.len() == 0 {
        0
    } else if right.len() == 0 {
        fallback
    } else {
        max_min_distance(left, right)
    }
}

/// Symmetric Hausdorff distance between the change points of two
/// segmentations of `n` samples.
pub open spec fn hausdorff_distance(truth: Seq<usize>, prediction: Seq<usize>, n: int) -> int {
    let forward = directed_distance(truth.drop_last(), prediction.drop_last(), n);
    let backward = directed_distance(prediction.drop_last(), truth.drop_last(), n);
    if forward >= backward {
        forward
    } else {
        backward
    }
}

proof fn lemma_min_distance_bounds(p: int, right: Seq<usize>)
    requires
        right.len() >= 1,
    ensures
        min_distance(p, right) >= 0,
        forall|i: int| 0 <= i < right.len() ==> min_distance(p, right) <= distance(p, #[trigger] right[i] as int),
        right.contains(p as usize) && 0 <= p <= usize::MAX ==> min_distance(p, right) == 0,
    decreases right.len(),
{
    if right.len() > 1 {
        let rest = right.drop_last();
        lemma_min_distance_bounds(p, rest);
        assert forall|i: int| 0 <= i < right.len() implies min_distance(p, right) <= distance(
            p,
            #[trigger] right[i] as int,
        ) by {
            if i < right.len() - 1 {
                assert(right[i] == rest[i]);
            }
        }
        if right.contains(p as usize) && 0 <= p <= usize::MAX {
            let k = choose|k: int| 0 <= k < right.len() && right[k] == p as usize;
            if k < right.len() - 1 {
                assert(rest[k] == p as usize);
                assert(rest.contains(p as usize));
            }
        }
    }
}

proof fn lemma_min_distance_attained(p: int, right: Seq<usize>)
    requires
        right.len() >= 1,
    ensures
        exists|j: int| 0 <= j < right.len() && min_distance(p, right) == distance(p, #[trigger] right[j] as int),
    decreases right.len(),
{
    if right.len() > 1 {
        let rest = right.drop_last();
        lemma_min_distance_attained(p, rest);
        let j = choose|j: int| 0 <= j < rest.len() && min_distance(p, rest) == distance(p, #[trigger] rest[j] as int);
        assert(right[j] == rest[j]);
        let last = right.len() - 1;
        assert(distance(p, right[last] as int) == distance(p, right.last() as int));
    } else {
        assert(distance(p, right[0] as int) == min_distance(p, right));
    }
}

proof fn lemma_max_min_distance_attained(left: Seq<usize>, right: Seq<usize>)
    requires
        left.len() >= 1,
        right.len() >= 1,
    ensures
        forall|i: int| 0 <= i < left.len() ==> min_distance(#[trigger] left[i] as int, right) <= max_min_distance(left, right),
        exists|i: int| 0 <= i < left.len() && max_min_distance(left, right) == min_distance(#[trigger] left[i] as int, right),
    decreases left.len(),
{
    if left.len() > 1 {
        let rest = left.drop_last();
        lemma_max_min_distance_attained(rest, right);
        assert forall|i: int| 0 <= i < left.len() implies min_distance(#[trigger] left[i] as int, right) <= max_min_distance(left, right) by {
            if i < left.len() - 1 {
                assert(left[i] == rest[i]);
            }
        }
        let i = choose|i: int| 0 <= i < rest.len() && max_min_distance(rest, right) == min_distance(#[trigger] rest[i] as int, right);
        assert(left[i] == rest[i]);
        assert(left[left.len() - 1] == left.last());
    } else {
        assert(left[0] == left.last());
    }
}

/// Some point of `b` is within distance `d` of `v`.
pub open spec fn has_point_within(v: int, b: Seq<usize>, d: int) -> bool {
    exists|j: int| 0 <= j < b.len() && v - b[j] <= d && b[j] - v <= d
}

/// Every point of `b` is at distance at least `d` from `v`.
pub open spec fn all_points_at_least(v: int, b: Seq<usize>, d: int) -> bool {
    forall|j: int| 0 <= j < b.len() ==> v - b[j] >= d || b[j] - v >= d
}

/// Every point of `a` has a point of `b` within distance `d`.
pub open spec fn covered_within(a: Seq<usize>, b: Seq<usize>, d: int) -> bool {
    forall|i: int| 0 <= i < a.len() ==> has_point_within(#[trigger] a[i] as int, b, d)
}

/// Some point of `a` is at distance at least `d` from every point of `b`.
pub open spec fn some_point_at_least(a: Seq<usize>, b: Seq<usize>, d: int) -> bool {
    exists|i: int| 0 <= i < a.len() && all_points_at_least(#[trigger] a[i] as int, b, d)
}

/// The directed Hausdorff distance from `left` to `right` is the largest
/// distance from a point of `left` to its nearest point of `right`: every
/// point of `left` has a point of `right` within it, and some point of
/// `left` is at least that far from every point of `right`.
pub proof fn lemma_directed_distance_is_farthest_nearest(left: Seq<usize>, right: Seq<usize>, fallback: int)
    requires
        left.len() >= 1,
        right.len() >= 1,
    ensures
        covered_within(left, right, directed_distance(left, right, fallback)),
        some_point_at_least(left, right, directed_distance(left, right, fallback)),
{
    let d = directed_distance(left, right, fallback);
    lemma_max_min_distance_attained(left, right);
    assert forall|i: int| 0 <= i < left.len() implies has_point_within(
        #[trigger] left[i] as int,
        right,
        d,
    ) by {
        lemma_min_distance_attained(left[i] as int, right);
        assert(min_distance(left[i] as int, right) <= d);
        let j = choose|j: int|
            0 <= j < right.len() && min_distance(left[i] as int, right) == distance(
                left[i] as int,
                #[trigger] right[j] as int,
            );
        assert(left[i] - right[j] <= d && right[j] - left[i] <= d);
    }
    let i = choose|i: int|
        0 <= i < left.len() && max_min_distance(left, right) == min_distance(
            #[trigger] left[i] as int,
            right,
        );
    lemma_min_distance_bounds(left[i] as int, right);
    assert forall|j: int| 0 <= j < right.len() implies left[i] - #[trigger] right[j] >= d
        || right[j] - left[i] >= d by {
        assert(min_distance(left[i] as int, right) <= distance(left[i] as int, right[j] as int));
    }
    assert(all_points_at_least(left[i] as int, right, d));
}

proof fn lemma_covered_within_weaken(a: Seq<usize>, b: Seq<usize>, x: int, d: int)
    requires
        covered_within(a, b, x),
        x <= d,
    ensures
        covered_within(a, b, d),
{
    assert forall|i: int| 0 <= i < a.len() implies has_point_within(#[trigger] a[i] as int, b, d) by {
        assert(has_point_within(a[i] as int, b, x));
        let j = choose|j: int| 0 <= j < b.len() && a[i] - b[j] <= x && b[j] - a[i] <= x;
    }
}

/// The Hausdorff distance between the change points of two segmentations,
/// when both have some: every change point of either has one of the other
/// within it, and some change point is at least that far from all of the
/// other's.
pub proof fn lemma_hausdorff_is_farthest_nearest(truth: Seq<usize>, prediction: Seq<usize>, n: int)
    requires
        truth.len() >= 2,
        prediction.len() >= 2,
    ensures
        covered_within(
            truth.drop_last(),
            prediction.drop_last(),
            hausdorff_distance(truth, prediction, n),
        ),
        covered_within(
            prediction.drop_last(),
            truth.drop_last(),
            hausdorff_distance(truth, prediction, n),
        ),
        some_point_at_least(
            truth.drop_last(),
            prediction.drop_last(),
            hausdorff_distance(truth, prediction, n),
        ) || some_point_at_least(
            prediction.drop_last(),
            truth.drop_last(),
            hausdorff_distance(truth, prediction, n),
        ),
{
    let a = truth.drop_last();
    let b = prediction.drop_last();
    let d = hausdorff_distance(truth, prediction, n);
    lemma_directed_distance_is_farthest_nearest(a, b, n);
    lemma_directed_distance_is_farthest_nearest(b, a, n);
    lemma_covered_within_weaken(a, b, directed_distance(a, b, n), d);
    lemma_covered_within_weaken(b, a, directed_distance(b, a, n), d);
}

/// With change points on one side only, the Hausdorff distance is the signal
/// length; with none on either side it is zero.
pub proof fn lemma_hausdorff_without_changes(truth: Seq<usize>, prediction: Seq<usize>, n: int)
    requires
        truth.len() >= 1,
        prediction.len() >= 1,
        n >= 0,
    ensures
        truth.len() == 1 && prediction.len() == 1 ==> hausdorff_distance(truth, prediction, n) == 0,
        truth.len() == 1 && prediction.len() >= 2 ==> hausdorff_distance(truth, prediction, n) == n,
        truth.len() >= 2 && prediction.len() == 1 ==> hausdorff_distance(truth, prediction, n) == n,
{
}

proof fn lemma_max_min_distance_self(left: Seq<usize>, right: Seq<usize>)
    requires
        left.len() >= 1,
        right.len() >= 1,
        forall|i: int| 0 <= i < left.len() ==> right.contains(#[trigger] left[i]),
    ensures
        max_min_distance(left, right) == 0,
    decreases left.len(),
{
    lemma_min_distance_bounds(left.last() as int, right);
    assert(right.contains(left[left.len() - 1]));
    if left.len() > 1 {
        let rest = left.drop_last();
        assert forall|i: int| 0 <= i < rest.len() implies right.contains(#[trigger] rest[i]) by {
            assert(rest[i] == left[i]);
        }
        lemma_max_min_distance_self(rest, right);
    } else {
        lemma_min_distance_bounds(left[0] as int, right);
        assert(right.contains(left[0]));
    }
}

fn directed_hausdorff(left: &[usize], right: &[usize], fallback: usize) -> (r: usize)
    ensures
        r == directed_distance(left@, right@, fallback as int),
{
    if left.len() == 0 {
        return 0;
    }
    if right.len() == 0 {
        return fallback;
    }
    let mut best: usize = 0;
    let mut i: usize = 0;
    while i < left.len()
        invariant
            0 <= i <= left@.len(),
            left@.len() >= 1,
            right@.len() >= 1,
            i >= 1 ==> best == max_min_distance(left@.subrange(0, i as int), right@),
        decreases left@.len() - i,
    {
        let point = left[i];
        let mut nearest: usize = if point >= right[0] {
            point - right[0]
        } else {
            right[0] - point
        };
        let mut j: usize = 1;
        while j < right.len()
            invariant
                1 <= j <= right@.len(),
                nearest == min_distance(point as int, right@.subrange(0, j as int)),
            decreases right@.len() - j,
        {
            let d = if point >= right[j] {
                point - right[j]
            } else {
                right[j] - point
            };
            proof {
                assert(right@.subrange(0, j + 1).drop_last() =~= right@.subrange(0, j as int));
            }
            if d < nearest {
                nearest = d;
            }
            j = j + 1;
        }
        proof {
            assert(right@.subrange(0, right@.len() as int) =~= right@);
            assert(left@.subrange(0, i + 1).drop_last() =~= left@.subrange(0, i as int));
        }
        if i == 0 || nearest > best {
            best = nearest;
        }
        i = i + 1;
    }
    proof {
        assert(left@.subrange(0, left@.len() as int) =~= left@);
    }
    best
}

/// Symmetric Hausdorff distance between the change points of two
/// segmentations; the signal length when exactly one has no change.
pub fn hausdorff(truth: &[usize], prediction: &[usize]) -> (r: Result<usize, Error>)
    ensures
        match r {
            Ok(d) => {
                let a = truth@.drop_last();
                let b = prediction@.drop_last();
                &&& truth@.len() > 0 && valid_breakpoints(truth@, truth@.last() as int, 1)
                    && valid_breakpoints(prediction@, truth@.last() as int, 1) && d
                    == hausdorff_distance(truth@, prediction@, truth@.last() as int)
                &&& a.len() > 0 && b.len() > 0 ==> covered_within(a, b, d as int) && covered_within(
                    b,
                    a,
                    d as int,
                ) && (some_point_at_least(a, b, d as int) || some_point_at_least(b, a, d as int))
                &&& a.len() == 0 && b.len() == 0 ==> d == 0
                &&& (a.len() == 0) != (b.len() == 0) ==> d == truth@.last()
            },
            Err(e) => pair_error(truth@, prediction@) == Some(e),
        },
        r is Ok <==> comparable(truth@, prediction@),
{
    let n_samples = validate_pair(truth, prediction)?;
    proof {
        if truth@.len() >= 2 && prediction@.len() >= 2 {
            lemma_hausdorff_is_farthest_nearest(truth@, prediction@, n_samples as int);
        }
        lemma_hausdorff_without_changes(truth@, prediction@, n_samples as int);
    }
    let left = change_points(truth);
    let right = change_points(prediction);
    let forward = directed_hausdorff(left.as_slice(), right.as_slice(), n_samples);
    let backward = directed_hausdorff(right.as_slice(), left.as_slice(), n_samples);
    if forward >= backward {
        Ok(forward)
    } else {
        Ok(backward)
    }
}

/// The Hausdorff distance does not depend on which segmentation is taken
/// as the reference.
pub proof fn lemma_hausdorff_symmetric(a: Seq<usize>, b: Seq<usize>, n: int)
    ensures
        hausdorff_distance(a, b, n) == hausdorff_distance(b, a, n),
{
}

/// A segmentation is at Hausdorff distance zero from itself.
pub proof fn lemma_hausdorff_self(a: Seq<usize>, n: int)
    requires
        a.len() >= 1,
    ensures
        hausdorff_distance(a, a, n) == 0,
{
    let c = a.drop_last();
    if c.len() > 0 {
        assert forall|i: int| 0 <= i < c.len() implies c.contains(#[trigger] c[i]) by {
        }
        lemma_max_min_distance_self(c, c);
    }
}

// ---------------------------------------------------------------------------
// Precision and recall
// ---------------------------------------------------------------------------

/// Outcome of one-to-one margin matching: `matches` change points of the
/// prediction were matched among `predicted` predicted and `reference`
/// true change points. Precision is `matches / predicted` (one when both
/// sides are empty, zero when only the prediction is) and recall is
/// `matches / reference` (one when there is no true change).
#[derive(Clone, Copy, Debug, PartialEq, Eq, Structural)]
pub struct MatchCounts {
    pub matches: usize,
    pub predicted: usize,
    pub reference: usize,
}

impl MatchCounts {
    /// Precision as a fraction: matched over predicted change points, one
    /// when neither side has a change point and zero when only the
    /// prediction is empty.
    pub fn precision_fraction(self) -> (r: (usize, usize))
        ensures
            r == if self.predicted == 0 {
                (if self.reference == 0 {
                    1usize
                } else {
                    0usize
                }, 1usize)
            } else {
                (self.matches, self.predicted)
            },
    {
        if self.predicted == 0 {
            (if self.reference == 0 {
                1
            } else {
                0
            }, 1)
        } else {
            (self.matches, self.predicted)
        }
    }

    /// Recall as a fraction: matched over true change points, one when there
    /// is no true change point.
    pub fn recall_fraction(self) -> (r: (usize, usize))
        ensures
            r == if self.reference == 0 {
                (1usize, 1usize)
            } else {
                (self.matches, self.reference)
            },
    {
        if self.reference == 0 {
            (1, 1)
        } else {
            (self.matches, self.reference)
        }
    }
}

/// Whether `a` is a better match for reference `r` than `b`: closer, then
/// smaller, then earlier.
pub open spec fn match_key_less(r: int, pa: int, ia: int, pb: int, ib: int) -> bool {
    distance(r, pa) < distance(r, pb) || (distance(r, pa) == distance(r, pb) && (pa < pb || (pa
        == pb && ia < ib)))
}

/// The index of the prediction that reference `r` is matched to, given the
/// predictions already used, if any is closer than `margin`.
pub open spec fn best_match(r: int, prediction: Seq<usize>, used: Seq<bool>, margin: int, upto: int) -> Option<
    int,
>
    decreases upto,
{
    if upto <= 0 {
        None
    } else {
        let i = upto - 1;
        let rest = best_match(r, prediction, used, margin, i);
        if !used[i] && distance(r, prediction[i] as int) < margin {
            match rest {
                Some(j) => if match_key_less(r, prediction[i] as int, i, prediction[j] as int, j) {
                    Some(i)
                } else {
                    Some(j)
                },
                None => Some(i),
            }
        } else {
            rest
        }
    }
}

/// Greedy matching of the first `k` references: the predictions used and the
/// number of matches.
pub open spec fn greedy_matching(truth: Seq<usize>, prediction: Seq<usize>, margin: int, k: int) -> (
    Seq<bool>,
    nat,
)
    decreases k,
{
    if k <= 0 {
        (Seq::new(prediction.len(), |i: int| false), 0)
    } else {
        let (used, count) = greedy_matching(truth, prediction, margin, k - 1);
        match best_match(truth[k - 1] as int, prediction, used, margin, prediction.len() as int) {
            Some(j) => (used.update(j, true), count + 1),
            None => (used, count),
        }
    }
}

pub open spec fn count_true(s: Seq<bool>) -> nat
    decreases s.len(),
{
    if s.len() == 0 {
        0
    } else {
        count_true(s.drop_last()) + if s.last() {
            1nat
        } else {
            0nat
        }
    }
}

proof fn lemma_count_true_update(s: Seq<bool>, j: int)
    requires
        0 <= j < s.len(),
        !s[j],
    ensures
        count_true(s.update(j, true)) == count_true(s) + 1,
    decreases s.len(),
{
    let t = s.update(j, true);
    if j < s.len() - 1 {
        lemma_count_true_update(s.drop_last(), j);
        assert(t.drop_last() =~= s.drop_last().update(j, true));
    } else {
        assert(t.drop_last() =~= s.drop_last());
    }
}

proof fn lemma_count_true_bound(s: Seq<bool>)
    ensures
        count_true(s) <= s.len(),
    decreases s.len(),
{
    if s.len() > 0 {
        lemma_count_true_bound(s.drop_last());
    }
}

proof fn lemma_count_false(n: nat)
    ensures
        count_true(Seq::new(n, |i: int| false)) == 0,
    decreases n,
{
    if n > 0 {
        lemma_count_false((n - 1) as nat);
        assert(Seq::new(n, |i: int| false).drop_last() =~= Seq::new((n - 1) as nat, |i: int| false));
    }
}

proof fn lemma_best_match_unused(r: int, prediction: Seq<usize>, used: Seq<bool>, margin: int, upto: int)
    requires
        0 <= upto <= prediction.len(),
        used.len() == prediction.len(),
    ensures
        best_match(r, prediction, used, margin, upto) matches Some(j) ==> 0 <= j < upto && !used[j]
            && distance(r, prediction[j] as int) < margin,
    decreases upto,
{
    if upto > 0 {
        lemma_best_match_unused(r, prediction, used, margin, upto - 1);
    }
}

/// Greedy matching never uses a prediction twice, so the number of matches
/// is the number of used predictions.
proof fn lemma_greedy_matching_counts(truth: Seq<usize>, prediction: Seq<usize>, margin: int, k: int)
    requires
        0 <= k <= truth.len(),
    ensures
        greedy_matching(truth, prediction, margin, k).0.len() == prediction.len(),
        greedy_matching(truth, prediction, margin, k).1 == count_true(
            greedy_matching(truth, prediction, margin, k).0,
        ),
        greedy_matching(truth, prediction, margin, k).1 <= k,
    decreases k,
{
    if k <= 0 {
        lemma_count_false(prediction.len());
    } else {
        lemma_greedy_matching_counts(truth, prediction, margin, k - 1);
        let (used, count) = greedy_matching(truth, prediction, margin, k - 1);
        lemma_best_match_unused(
            truth[k - 1] as int,
            prediction,
            used,
            margin,
            prediction.len() as int,
        );
        if let Some(j) = best_match(
            truth[k - 1] as int,
            prediction,
            used,
            margin,
            prediction.len() as int,
        ) {
            lemma_count_true_update(used, j);
        }
    }
}

/// The absolute difference of two positions.
pub open spec fn gap(a: int, b: int) -> int {
    if a >= b {
        a - b
    } else {
        b - a
    }
}

/// Prediction `j` is at least as good a match for reference `r` as
/// prediction `q`: strictly closer, or as close and at a smaller position, or
/// at the same position and not later in the list.
pub open spec fn preferred_match(r: int, prediction: Seq<usize>, j: int, q: int) -> bool {
    let dj = gap(r, prediction[j] as int);
    let dq = gap(r, prediction[q] as int);
    dj < dq || (dj == dq && (prediction[j] < prediction[q] || (prediction[j] == prediction[q] && j
        <= q)))
}

/// Prediction `q` is free and strictly within `margin` of `r`.
pub open spec fn available(r: int, prediction: Seq<usize>, used: Seq<bool>, margin: int, q: int) -> bool {
    !used[q] && gap(r, prediction[q] as int) < margin
}

proof fn lemma_best_match_is_nearest(
    r: int,
    prediction: Seq<usize>,
    used: Seq<bool>,
    margin: int,
    upto: int,
)
    requires
        0 <= upto <= prediction.len(),
        used.len() == prediction.len(),
    ensures
        match best_match(r, prediction, used, margin, upto) {
            Some(j) => {
                &&& 0 <= j < upto
                &&& available(r, prediction, used, margin, j)
                &&& forall|q: int|
                    0 <= q < upto && #[trigger] available(r, prediction, used, margin, q)
                        ==> preferred_match(r, prediction, j, q)
            },
            None => forall|q: int|
                0 <= q < upto ==> !#[trigger] available(r, prediction, used, margin, q),
        },
    decreases upto,
{
    if upto > 0 {
        lemma_best_match_is_nearest(r, prediction, used, margin, upto - 1);
        let i = upto - 1;
        match best_match(r, prediction, used, margin, upto - 1) {
            Some(j) => {
                if available(r, prediction, used, margin, i) && match_key_less(
                    r,
                    prediction[i] as int,
                    i,
                    prediction[j] as int,
                    j,
                ) {
                    assert forall|q: int|
                        0 <= q < upto && #[trigger] available(r, prediction, used, margin, q)
                            implies preferred_match(r, prediction, i, q) by {
                        if q < i {
                            assert(preferred_match(r, prediction, j, q));
                        }
                    }
                }
            },
            None => {},
        }
    }
}

/// Before any true change point is taken no prediction is used and nothing
/// is matched, and at every stage the number of matches is the number of
/// predictions used.
pub proof fn lemma_greedy_matching_counts_used(
    truth: Seq<usize>,
    prediction: Seq<usize>,
    margin: int,
    k: int,
)
    requires
        0 <= k <= truth.len(),
    ensures
        greedy_matching(truth, prediction, margin, 0).1 == 0,
        greedy_matching(truth, prediction, margin, 0).0.len() == prediction.len(),
        forall|q: int|
            0 <= q < prediction.len() ==> !#[trigger] greedy_matching(truth, prediction, margin, 0).0[q],
        greedy_matching(truth, prediction, margin, k).0.len() == prediction.len(),
        greedy_matching(truth, prediction, margin, k).1 == count_true(
            greedy_matching(truth, prediction, margin, k).0,
        ),
{
    lemma_greedy_matching_counts(truth, prediction, margin, k);
}

/// Greedy matching takes the true change points in order and matches each
/// to the free prediction nearest to it within the margin (the smaller
/// position, then the earlier one, on a tie), or leaves it unmatched when no
/// free prediction is within the margin.
pub proof fn lemma_greedy_matching_takes_nearest(
    truth: Seq<usize>,
    prediction: Seq<usize>,
    margin: int,
    k: int,
)
    requires
        0 <= k < truth.len(),
    ensures
        ({
            let (used, count) = greedy_matching(truth, prediction, margin, k);
            let (next_used, next_count) = greedy_matching(truth, prediction, margin, k + 1);
            let r = truth[k] as int;
            ||| {
                &&& next_used == used
                &&& next_count == count
                &&& forall|q: int|
                    0 <= q < prediction.len() ==> !#[trigger] available(r, prediction, used, margin, q)
            }
            ||| exists|j: int|
                #![trigger used[j]]
                {
                    &&& 0 <= j < prediction.len()
                    &&& available(r, prediction, used, margin, j)
                    &&& next_used == used.update(j, true)
                    &&& next_count == count + 1
                    &&& forall|q: int|
                        0 <= q < prediction.len() && #[trigger] available(r, prediction, used, margin, q)
                            ==> preferred_match(r, prediction, j, q)
                }
        }),
{
    lemma_greedy_matching_counts(truth, prediction, margin, k);
    let (used, count) = greedy_matching(truth, prediction, margin, k);
    lemma_best_match_is_nearest(
        truth[k] as int,
        prediction,
        used,
        margin,
        prediction.len() as int,
    );
    match best_match(truth[k] as int, prediction, used, margin, prediction.len() as int) {
        Some(j) => {
            assert(used[j] == used[j]);
        },
        None => {},
    }
}

/// Each true change point is matched to at most one predicted change point
/// and each predicted one to at most one true one, so precision and recall
/// never exceed one.
pub proof fn lemma_matches_bounded(truth: Seq<usize>, prediction: Seq<usize>, margin: int)
    ensures
        greedy_matching(truth, prediction, margin, truth.len() as int).1 <= truth.len(),
        greedy_matching(truth, prediction, margin, truth.len() as int).1 <= prediction.len(),
{
    lemma_greedy_matching_counts(truth, prediction, margin, truth.len() as int);
    lemma_count_true_bound(greedy_matching(truth, prediction, margin, truth.len() as int).0);
}

/// One-to-one margin matching of predicted and true change points: every
/// true change point, in order, takes the closest unused predicted change
/// point strictly within `margin` (the smaller one, then the earlier one, on
/// a tie).
pub fn precision_recall(truth: &[usize], prediction: &[usize], margin: usize) -> (r: Result<
    MatchCounts,
    Error,
>)
    ensures
        match r {
            Ok(counts) => {
                &&& truth@.len() > 0 && margin > 0
                &&& valid_breakpoints(truth@, truth@.last() as int, 1)
                &&& valid_breakpoints(prediction@, truth@.last() as int, 1)
                &&& counts.predicted == prediction@.len() - 1
                &&& counts.reference == truth@.len() - 1
                &&& counts.matches == greedy_matching(
                    truth@.drop_last(),
                    prediction@.drop_last(),
                    margin as int,
                    truth@.len() - 1,
                ).1
                &&& counts.matches <= counts.predicted && counts.matches <= counts.reference
            },
            Err(e) => if pair_error(truth@, prediction@) is Some {
                pair_error(truth@, prediction@) == Some(e)
            } else {
                margin == 0 && e == (Error::InvalidMargin { value: margin })
            },
        },
        r is Ok <==> (comparable(truth@, prediction@) && margin > 0),
{
    validate_pair(truth, prediction)?;
    if margin == 0 {
        return Err(Error::InvalidMargin { value: margin });
    }
    let reference = change_points(truth);
    let predicted = change_points(prediction);
    let ghost t = reference@;
    let ghost p = predicted@;
    let mut used: Vec<bool> = Vec::new();
    let mut k: usize = 0;
    while k < predicted.len()
        invariant
            k <= p.len(),
            p == predicted@,
            used@ == Seq::new(k as nat, |i: int| false),
        decreases p.len() - k,
    {
        used.push(false);
        k = k + 1;
        proof {
            assert(used@ =~= Seq::new(k as nat, |i: int| false));
        }
    }
    let mut matches: usize = 0;
    let mut t_index: usize = 0;
    while t_index < reference.len()
        invariant
            t == reference@,
            p == predicted@,
            t_index <= t.len(),
            (used@, matches as nat) == greedy_matching(t, p, margin as int, t_index as int),
            used@.len() == p.len(),
            matches <= t_index,
        decreases t.len() - t_index,
    {
        let point = reference[t_index];
        let mut best: usize = usize::MAX;
        let mut j: usize = 0;
        proof {
            lemma_greedy_matching_counts(t, p, margin as int, t_index as int);
        }
        while j < predicted.len()
            invariant
                t == reference@,
                p == predicted@,
                t_index < t.len(),
                point == t[t_index as int],
                used@.len() == p.len(),
                j <= p.len(),
                match best_match(point as int, p, used@, margin as int, j as int) {
                    Some(b) => best as int == b,
                    None => best == usize::MAX,
                },
            decreases p.len() - j,
        {
            let candidate = predicted[j];
            let d = if point >= candidate {
                point - candidate
            } else {
                candidate - point
            };
            if !used[j] && d < margin {
                proof {
                    lemma_best_match_unused(point as int, p, used@, margin as int, j as int);
                }
                if best == usize::MAX {
                    best = j;
                } else {
                    let incumbent = predicted[best];
                    let db = if point >= incumbent {
                        point - incumbent
                    } else {
                        incumbent - point
                    };
                    if d < db || (d == db && (candidate < incumbent || (candidate == incumbent
                        && j < best))) {
                        best = j;
                    }
                }
            }
            j = j + 1;
        }
        proof {
            lemma_best_match_unused(point as int, p, used@, margin as int, p.len() as int);
        }
        if best != usize::MAX {
            used.set(best, true);
            matches = matches + 1;
        }
        t_index = t_index + 1;
    }
    proof {
        lemma_matches_bounded(t, p, margin as int);
    }
    Ok(MatchCounts { matches, predicted: predicted.len(), reference: reference.len() })
}

// ---------------------------------------------------------------------------
// Rand index
// ---------------------------------------------------------------------------

/// Unordered pairs of `length` samples.
pub open spec fn pairs(length: int) -> int {
    if length <= 1 {
        0
    } else {
        length * (length - 1) / 2
    }
}

proof fn lemma_pairs_facts(a: int, b: int)
    requires
        a >= 0,
        b >= 0,
    ensures
        pairs(a) + pairs(b) <= pairs(a + b),
        pairs(a) >= 0,
        a <= b ==> pairs(a) <= pairs(b),
{
    assert(a * (a - 1) % 2 == 0 && (a * (a - 1) / 2) * 2 == a * (a - 1)) by {
        lemma_product_consecutive_even(a);
    }
    assert(b * (b - 1) % 2 == 0 && (b * (b - 1) / 2) * 2 == b * (b - 1)) by {
        lemma_product_consecutive_even(b);
    }
    assert((a + b) * (a + b - 1) % 2 == 0 && ((a + b) * (a + b - 1) / 2) * 2 == (a + b) * (a + b
        - 1)) by {
        lemma_product_consecutive_even(a + b);
    }
    let pa = if a <= 1 { 0 } else { a * (a - 1) / 2 };
    let pb = if b <= 1 { 0 } else { b * (b - 1) / 2 };
    let pab = if a + b <= 1 { 0 } else { (a + b) * (a + b - 1) / 2 };
    assert(pa * 2 == a * (a - 1)) by (nonlinear_arith)
        requires
            a >= 0,
            a <= 1 ==> pa == 0,
            a > 1 ==> pa * 2 == a * (a - 1),
    ;
    assert(pb * 2 == b * (b - 1)) by (nonlinear_arith)
        requires
            b >= 0,
            b <= 1 ==> pb == 0,
            b > 1 ==> pb * 2 == b * (b - 1),
    ;
    assert(pab * 2 == (a + b) * (a + b - 1)) by (nonlinear_arith)
        requires
            a + b >= 0,
            a + b <= 1 ==> pab == 0,
            a + b > 1 ==> pab * 2 == (a + b) * (a + b - 1),
    ;
    assert(pa + pb <= pab && pa >= 0 && (a <= b ==> pa <= pb)) by (nonlinear_arith)
        requires
            a >= 0,
            b >= 0,
            pa * 2 == a * (a - 1),
            pb * 2 == b * (b - 1),
            pab * 2 == (a + b) * (a + b - 1),
    ;
}

proof fn lemma_product_consecutive_even(a: int)
    ensures
        a * (a - 1) % 2 == 0,
        (a * (a - 1) / 2) * 2 == a * (a - 1),
{
    let h = a / 2;
    vstd::arithmetic::div_mod::lemma_fundamental_div_mod(a, 2);
    if a % 2 == 0 {
        assert(a * (a - 1) == 2 * (h * (a - 1))) by (nonlinear_arith)
            requires
                a == 2 * h,
        ;
        vstd::arithmetic::div_mod::lemma_mod_multiples_basic(h * (a - 1), 2);
        vstd::arithmetic::div_mod::lemma_div_multiples_vanish(h * (a - 1), 2);
    } else {
        assert(a * (a - 1) == 2 * (a * h)) by (nonlinear_arith)
            requires
                a == 2 * h + 1,
        ;
        vstd::arithmetic::div_mod::lemma_mod_multiples_basic(a * h, 2);
        vstd::arithmetic::div_mod::lemma_div_multiples_vanish(a * h, 2);
    }
}

fn pairs_of(length: usize) -> (r: u128)
    ensures
        r == pairs(length as int),
{
    if length <= 1 {
        return 0;
    }
    let l = length as u128;
    proof {
        assert(l * (l - 1) <= 0xffff_ffff_ffff_ffff * 0xffff_ffff_ffff_ffff) by (nonlinear_arith)
            requires
                1 < l <= 0xffff_ffff_ffff_ffff,
        ;
    }
    l * (l - 1) / 2
}

/// Pairs of samples that share a segment of `b`, over its first `k`
/// segments.
pub open spec fn same_segment_pairs(b: Seq<usize>, k: int) -> int
    decreases k,
{
    if k <= 0 {
        0
    } else {
        same_segment_pairs(b, k - 1) + pairs(b[k - 1] - segment_start(b, k - 1))
    }
}

/// Pairs of samples that share a segment of both `t` and `p`, summed over
/// the intersections met by a left-to-right sweep from segment `ti` of `t`
/// and segment `pi` of `p`.
pub open spec fn shared_pairs_from(t: Seq<usize>, p: Seq<usize>, ti: int, pi: int) -> int
    decreases t.len() - ti + p.len() - pi,
{
    if ti < 0 || pi < 0 || ti >= t.len() || pi >= p.len() {
        0
    } else {
        let end = if t[ti] <= p[pi] {
            t[ti] as int
        } else {
            p[pi] as int
        };
        let ts = segment_start(t, ti);
        let ps = segment_start(p, pi);
        let start = if ts >= ps {
            ts
        } else {
            ps
        };
        let next_ti = if t[ti] == end {
            ti + 1
        } else {
            ti
        };
        let next_pi = if p[pi] == end {
            pi + 1
        } else {
            pi
        };
        if next_ti == ti && next_pi == pi {
            0
        } else {
            pairs(end - start) + shared_pairs_from(t, p, next_ti, next_pi)
        }
    }
}

/// Number of samples that segment `i` of `t` and segment `j` of `p` share.
pub open spec fn intersection_length(t: Seq<usize>, p: Seq<usize>, i: int, j: int) -> int {
    let lo = if segment_start(t, i) >= segment_start(p, j) {
        segment_start(t, i)
    } else {
        segment_start(p, j)
    };
    let hi = if t[i] <= p[j] {
        t[i] as int
    } else {
        p[j] as int
    };
    if hi > lo {
        hi - lo
    } else {
        0
    }
}

/// Unordered pairs of samples inside the intersection of segment `i` of `t`
/// and segment `j` of `p`.
pub open spec fn intersection_pairs(t: Seq<usize>, p: Seq<usize>, i: int, j: int) -> int {
    let length = intersection_length(t, p, i, j);
    length * (length - 1) / 2
}

/// Sum of `intersection_pairs(t, p, i, j')` over the segments `j' >= j` of `p`.
pub open spec fn row_intersection_pairs(t: Seq<usize>, p: Seq<usize>, i: int, j: int) -> int
    decreases p.len() - j,
{
    if j < 0 || j >= p.len() {
        0
    } else {
        intersection_pairs(t, p, i, j) + row_intersection_pairs(t, p, i, j + 1)
    }
}

/// Sum of `intersection_pairs(t, p, i', j')` over the segments `i' >= i` of
/// `t` and `j' >= j` of `p`.
pub open spec fn grid_intersection_pairs(t: Seq<usize>, p: Seq<usize>, i: int, j: int) -> int
    decreases t.len() - i,
{
    if i < 0 || i >= t.len() {
        0
    } else {
        row_intersection_pairs(t, p, i, j) + grid_intersection_pairs(t, p, i + 1, j)
    }
}

proof fn lemma_row_beyond_is_zero(t: Seq<usize>, p: Seq<usize>, i: int, j: int)
    requires
        0 <= i < t.len(),
        1 <= j,
        j <= p.len(),
        strictly_increasing(p),
        t[i] <= p[j - 1],
    ensures
        row_intersection_pairs(t, p, i, j) == 0,
    decreases p.len() - j,
{
    if j < p.len() {
        assert(p[j - 1] < p[j]);
        lemma_row_beyond_is_zero(t, p, i, j + 1);
        assert(intersection_length(t, p, i, j) == 0);
    }
}

proof fn lemma_grid_drops_column(t: Seq<usize>, p: Seq<usize>, a: int, j: int)
    requires
        1 <= a,
        a <= t.len(),
        0 <= j < p.len(),
        strictly_increasing(t),
        p[j] <= t[a - 1],
    ensures
        grid_intersection_pairs(t, p, a, j) == grid_intersection_pairs(t, p, a, j + 1),
    decreases t.len() - a,
{
    if a < t.len() {
        assert(t[a - 1] < t[a]);
        lemma_grid_drops_column(t, p, a + 1, j);
        assert(intersection_length(t, p, a, j) == 0);
    }
}

proof fn lemma_grid_without_columns(t: Seq<usize>, p: Seq<usize>, a: int)
    requires
        0 <= a,
    ensures
        grid_intersection_pairs(t, p, a, p.len() as int) == 0,
    decreases t.len() - a,
{
    if a < t.len() {
        lemma_grid_without_columns(t, p, a + 1);
    }
}

proof fn lemma_sweep_sums_intersections(t: Seq<usize>, p: Seq<usize>, n: int, ti: int, pi: int)
    requires
        strictly_increasing(t),
        strictly_increasing(p),
        t.len() >= 1,
        p.len() >= 1,
        t.last() == n,
        p.last() == n,
        0 <= ti <= t.len(),
        0 <= pi <= p.len(),
        ti < t.len() && pi < p.len() ==> segment_start(t, ti) < p[pi] && segment_start(p, pi)
            < t[ti],
    ensures
        shared_pairs_from(t, p, ti, pi) == grid_intersection_pairs(t, p, ti, pi),
    decreases t.len() - ti + p.len() - pi,
{
    if ti >= t.len() {
    } else if pi >= p.len() {
        lemma_grid_without_columns(t, p, ti);
    } else {
        let length = intersection_length(t, p, ti, pi);
        assert(length >= 1);
        assert(pairs(length) == length * (length - 1) / 2) by {
            if length == 1 {
                assert(length * (length - 1) == 0) by (nonlinear_arith)
                    requires
                        length == 1,
                ;
            }
        }
        if t[ti] < p[pi] {
            if ti + 1 < t.len() {
                assert(t[ti] < t[ti + 1]);
            }
            lemma_sweep_sums_intersections(t, p, n, ti + 1, pi);
            lemma_row_beyond_is_zero(t, p, ti, pi + 1);
            if ti + 1 == t.len() {
                assert(t[ti] == n);
                assert(p[pi] <= p.last()) by {
                    if pi < p.len() - 1 {
                        assert(p[pi] < p[p.len() - 1]);
                    }
                }
            }
        } else if p[pi] < t[ti] {
            if pi + 1 < p.len() {
                assert(p[pi] < p[pi + 1]);
            }
            lemma_sweep_sums_intersections(t, p, n, ti, pi + 1);
            lemma_grid_drops_column(t, p, ti + 1, pi);
            if pi + 1 == p.len() {
                assert(p[pi] == n);
                assert(t[ti] <= t.last()) by {
                    if ti < t.len() - 1 {
                        assert(t[ti] < t[t.len() - 1]);
                    }
                }
            }
        } else {
            if ti + 1 < t.len() {
                assert(t[ti] < t[ti + 1]);
            }
            if pi + 1 < p.len() {
                assert(p[pi] < p[pi + 1]);
            }
            lemma_sweep_sums_intersections(t, p, n, ti + 1, pi + 1);
            lemma_row_beyond_is_zero(t, p, ti, pi + 1);
            lemma_grid_drops_column(t, p, ti + 1, pi);
        }
    }
}

/// The pairs of samples that share a segment of both segmentations are the
/// pairs inside the intersections of a segment of one with a segment of the
/// other, summed over every such couple of segments.
pub proof fn lemma_shared_pairs_sum_intersections(t: Seq<usize>, p: Seq<usize>, n: int)
    requires
        valid_breakpoints(t, n, 1),
        valid_breakpoints(p, n, 1),
    ensures
        shared_pairs_from(t, p, 0, 0) == grid_intersection_pairs(t, p, 0, 0),
{
    lemma_increasing(t, n, 1);
    lemma_increasing(p, n, 1);
    assert(segment_start(t, 0) + 1 <= t[0]);
    assert(segment_start(p, 0) + 1 <= p[0]);
    lemma_sweep_sums_intersections(t, p, n, 0, 0);
}

/// Pair counts of the Rand index of two segmentations of `total_samples`
/// samples. The index is `(same_both + (total - same_truth - same_prediction
/// + same_both)) / total`, one when `total` is zero.
#[derive(Clone, Copy, Debug, PartialEq, Eq, Structural)]
pub struct PairCounts {
    pub same_truth: u128,
    pub same_prediction: u128,
    pub same_both: u128,
    pub total: u128,
}

proof fn lemma_same_segment_pairs_bound(b: Seq<usize>, n: int, k: int)
    requires
        valid_breakpoints(b, n, 1),
        0 <= k <= b.len(),
    ensures
        0 <= same_segment_pairs(b, k) <= pairs(segment_start(b, k)),
    decreases k,
{
    if k > 0 {
        lemma_same_segment_pairs_bound(b, n, k - 1);
        assert(segment_start(b, k - 1) + 1 <= b[k - 1]);
        let s = segment_start(b, k - 1);
        lemma_pairs_facts(s, b[k - 1] - s);
        assert(segment_start(b, k) == b[k - 1]);
    }
}

fn same_segment_pairs_of(b: &[usize], n: usize) -> (r: u128)
    requires
        valid_breakpoints(b@, n as int, 1),
    ensures
        r == same_segment_pairs(b@, b@.len() as int),
        r <= pairs(n as int),
{
    proof {
        lemma_same_segment_pairs_bound(b@, n as int, b@.len() as int);
        lemma_increasing(b@, n as int, 1);
    }
    let mut sum: u128 = 0;
    let mut start: usize = 0;
    let mut k: usize = 0;
    while k < b.len()
        invariant
            valid_breakpoints(b@, n as int, 1),
            strictly_increasing(b@),
            k <= b@.len(),
            start == segment_start(b@, k as int),
            sum == same_segment_pairs(b@, k as int),
        decreases b@.len() - k,
    {
        proof {
            lemma_same_segment_pairs_bound(b@, n as int, k + 1);
            assert(segment_start(b@, k as int) + 1 <= b@[k as int] && b@[k as int] <= n);
            lemma_pairs_facts(b@[k as int] as int, n as int - b@[k as int]);
            lemma_pairs_facts(n as int, 0);
            assert(pairs(n as int) < 0x8000_0000_0000_0000_0000_0000_0000_0000) by {
                lemma_pairs_below(n as int);
            }
        }
        let end = b[k];
        let length = end - start;
        sum = sum + pairs_of(length);
        start = end;
        k = k + 1;
    }
    proof {
        assert(segment_start(b@, b@.len() as int) == n);
    }
    sum
}

proof fn lemma_pairs_below(n: int)
    requires
        0 <= n <= usize::MAX,
    ensures
        pairs(n) < 0x8000_0000_0000_0000_0000_0000_0000_0000,
{
    if n > 1 {
        lemma_product_consecutive_even(n);
        assert(n * (n - 1) < 0x1_0000_0000_0000_0000_0000_0000_0000_0000) by (nonlinear_arith)
            requires
                1 < n <= 0xffff_ffff_ffff_ffff,
        ;
    }
}

/// Pair counts of the Rand index, computed from interval intersections
/// without materializing labels or sample pairs.
pub fn rand_index(truth: &[usize], prediction: &[usize]) -> (r: Result<PairCounts, Error>)
    ensures
        match r {
            Ok(c) => {
                let n = truth@.last() as int;
                &&& truth@.len() > 0
                &&& valid_breakpoints(truth@, n, 1)
                &&& valid_breakpoints(prediction@, n, 1)
                &&& c.total == pairs(n)
                &&& c.same_truth == same_segment_pairs(truth@, truth@.len() as int)
                &&& c.same_prediction == same_segment_pairs(prediction@, prediction@.len() as int)
                &&& c.same_both == shared_pairs_from(truth@, prediction@, 0, 0)
                &&& c.same_both == grid_intersection_pairs(truth@, prediction@, 0, 0)
                &&& c.same_truth == grid_intersection_pairs(truth@, truth@, 0, 0)
                &&& c.same_prediction == grid_intersection_pairs(prediction@, prediction@, 0, 0)
                &&& c.total == n * (n - 1) / 2
            },
            Err(e) => pair_error(truth@, prediction@) == Some(e),
        },
        r is Ok <==> comparable(truth@, prediction@),
{
    let n_samples = validate_pair(truth, prediction)?;
    proof {
        lemma_shared_pairs_sum_intersections(truth@, prediction@, n_samples as int);
        lemma_shared_pairs_sum_intersections(truth@, truth@, n_samples as int);
        lemma_shared_pairs_sum_intersections(prediction@, prediction@, n_samples as int);
        lemma_rand_index_self(truth@, n_samples as int);
        lemma_rand_index_self(prediction@, n_samples as int);
        let n = n_samples as int;
        if n <= 1 {
            assert(n * (n - 1) == 0) by (nonlinear_arith)
                requires
                    0 <= n <= 1,
            ;
        }
    }
    let same_truth = same_segment_pairs_of(truth, n_samples);
    let same_prediction = same_segment_pairs_of(prediction, n_samples);
    let total = pairs_of(n_samples);
    proof {
        lemma_increasing(truth@, n_samples as int, 1);
        lemma_increasing(prediction@, n_samples as int, 1);
        lemma_pairs_below(n_samples as int);
    }
    let ghost t = truth@;
    let ghost p = prediction@;
    let mut truth_index: usize = 0;
    let mut prediction_index: usize = 0;
    let mut truth_start: usize = 0;
    let mut prediction_start: usize = 0;
    let mut same_both: u128 = 0;
    proof {
        assert(segment_start(t, 0) + 1 <= t[0]);
        assert(segment_start(p, 0) + 1 <= p[0]);
    }
    while truth_index < truth.len() && prediction_index < prediction.len()
        invariant
            t == truth@,
            p == prediction@,
            valid_breakpoints(t, n_samples as int, 1),
            valid_breakpoints(p, n_samples as int, 1),
            strictly_increasing(t),
            strictly_increasing(p),
            truth_index <= t.len(),
            prediction_index <= p.len(),
            truth_start == segment_start(t, truth_index as int),
            prediction_start == segment_start(p, prediction_index as int),
            truth_index < t.len() && prediction_index < p.len() ==> truth_start < p[prediction_index as int] && prediction_start < t[truth_index as int],
            shared_pairs_from(t, p, 0, 0) == same_both + shared_pairs_from(
                t,
                p,
                truth_index as int,
                prediction_index as int,
            ),
            same_both <= pairs(
                if truth_start >= prediction_start {
                    truth_start as int
                } else {
                    prediction_start as int
                },
            ),
            pairs(n_samples as int) < 0x8000_0000_0000_0000_0000_0000_0000_0000,
        decreases t.len() - truth_index + p.len() - prediction_index,
    {
        let truth_end = truth[truth_index];
        let prediction_end = prediction[prediction_index];
        let end = if truth_end <= prediction_end {
            truth_end
        } else {
            prediction_end
        };
        let start = if truth_start >= prediction_start {
            truth_start
        } else {
            prediction_start
        };
        proof {
            assert(segment_start(t, truth_index as int) + 1 <= t[truth_index as int]);
            assert(segment_start(p, prediction_index as int) + 1 <= p[prediction_index as int]);
            assert(t[truth_index as int] <= n_samples && p[prediction_index as int] <= n_samples);
            lemma_pairs_facts(start as int, end - start);
            lemma_pairs_facts(end as int, n_samples - end);
        }
        same_both = same_both + pairs_of(end - start);
        if truth_end == end {
            truth_start = end;
            truth_index = truth_index + 1;
        }
        if prediction_end == end {
            prediction_start = end;
            prediction_index = prediction_index + 1;
        }
        proof {
            if truth_index < t.len() && prediction_index < p.len() {
                assert(t[truth_index as int] > truth_start) by {
                    assert(segment_start(t, truth_index as int) + 1 <= t[truth_index as int]);
                }
                assert(p[prediction_index as int] > prediction_start) by {
                    assert(segment_start(p, prediction_index as int) + 1 <= p[prediction_index as int]);
                }
            }
        }
    }
    Ok(PairCounts { same_truth, same_prediction, same_both, total })
}

/// Two identical segmentations agree on every pair of samples: every pair
/// in a common segment of one is in a common segment of the other, so the
/// Rand index of a segmentation with itself is one.
pub proof fn lemma_rand_index_self(b: Seq<usize>, n: int)
    requires
        valid_breakpoints(b, n, 1),
    ensures
        shared_pairs_from(b, b, 0, 0) == same_segment_pairs(b, b.len() as int),
{
    lemma_shared_pairs_self(b, n, 0);
}

proof fn lemma_shared_pairs_self(b: Seq<usize>, n: int, i: int)
    requires
        valid_breakpoints(b, n, 1),
        0 <= i <= b.len(),
    ensures
        same_segment_pairs(b, i) + shared_pairs_from(b, b, i, i) == same_segment_pairs(
            b,
            b.len() as int,
        ),
    decreases b.len() - i,
{
    if i < b.len() {
        lemma_shared_pairs_self(b, n, i + 1);
    }
}

} // verus!
