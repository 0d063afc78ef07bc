use vstd::prelude::*;

use crate::error::Error;
use crate::segmentation::{segment_start, valid_breakpoints};

verus! {

/// Checks the integer parameters of a synthetic piecewise signal: at least
/// one sample and one feature, and fewer changes than samples.
pub fn validate_dataset_shape(n_samples: usize, n_features: usize, n_bkps: usize) -> (r: Result<
    (),
    Error,
>)
    ensures
        r is Ok <==> (n_samples > 0 && n_features > 0 && n_bkps < n_samples),
        r matches Err(e) ==> e == Error::InvalidDatasetParameters,
{
    if n_samples == 0 || n_features == 0 || n_bkps >= n_samples {
        return Err(Error::InvalidDatasetParameters);
    }
    Ok(())
}

/// Sum of a sequence of counts.
pub open spec fn seq_sum(s: Seq<usize>) -> int
    decreases s.len(),
{
    if s.len() == 0 {
        0
    } else {
        seq_sum(s.drop_last()) + s.last()
    }
}

proof fn lemma_seq_sum_prefix(s: Seq<usize>, k: int)
    requires
        0 <= k < s.len(),
    ensures
        seq_sum(s.subrange(0, k + 1)) == seq_sum(s.subrange(0, k)) + s[k],
{
    assert(s.subrange(0, k + 1).drop_last() =~= s.subrange(0, k));
}

proof fn lemma_seq_sum_bounds(s: Seq<usize>, k: int)
    requires
        0 <= k <= s.len(),
    ensures
        0 <= seq_sum(s.subrange(0, k)) <= seq_sum(s),
    decreases s.len() - k,
{
    if k < s.len() {
        lemma_seq_sum_prefix(s, k);
        lemma_seq_sum_bounds(s, k + 1);
        lemma_seq_sum_nonnegative(s.subrange(0, k));
    } else {
        assert(s.subrange(0, k) =~= s);
        lemma_seq_sum_nonnegative(s);
    }
}

proof fn lemma_seq_sum_nonnegative(s: Seq<usize>)
    ensures
        seq_sum(s) >= 0,
    decreases s.len(),
{
    if s.len() > 0 {
        lemma_seq_sum_nonnegative(s.drop_last());
    }
}

proof fn lemma_seq_sum_increment(s: Seq<usize>, i: int)
    requires
        0 <= i < s.len(),
        s[i] < usize::MAX,
    ensures
        seq_sum(s.update(i, (s[i] + 1) as usize)) == seq_sum(s) + 1,
    decreases s.len(),
{
    let t = s.update(i, (s[i] + 1) as usize);
    if i == s.len() - 1 {
        assert(t.drop_last() =~= s.drop_last());
    } else {
        lemma_seq_sum_increment(s.drop_last(), i);
        assert(t.drop_last() =~= s.drop_last().update(i, (s[i] + 1) as usize));
    }
}

/// The slack left once every segment has received its extra samples, or
/// `None` when the extras already exceed `slack`.
pub fn leftover(slack: usize, extras: &[usize]) -> (r: Option<usize>)
    ensures
        match r {
            Some(rest) => seq_sum(extras@) <= slack && rest == slack - seq_sum(extras@),
            None => seq_sum(extras@) > slack,
        },
{
    let mut total: usize = 0;
    let mut index: usize = 0;
    while index < extras.len()
        invariant
            index <= extras@.len(),
            total == seq_sum(extras@.subrange(0, index as int)),
            total <= slack,
        decreases extras@.len() - index,
    {
        proof {
            lemma_seq_sum_prefix(extras@, index as int);
            lemma_seq_sum_bounds(extras@, index as int + 1);
        }
        if extras[index] > slack - total {
            proof {
                lemma_seq_sum_bounds(extras@, index as int + 1);
            }
            return None;
        }
        total = total + extras[index];
        index = index + 1;
    }
    proof {
        assert(extras@.subrange(0, extras@.len() as int) =~= extras@);
    }
    Some(slack - total)
}

/// `order[..count]` holds `i`.
pub open spec fn among_first(order: Seq<usize>, count: int, i: int) -> bool {
    exists|j: int| 0 <= j < count && j < order.len() && order[j] == i
}

/// Gives one more sample to each of the first `remainder` segments of
/// `order` (all of them when `order` is shorter).
pub fn distribute_remainder(extras: &mut Vec<usize>, order: &[usize], remainder: usize)
    requires
        forall|j: int| 0 <= j < order@.len() ==> #[trigger] order@[j] < old(extras)@.len(),
        forall|a: int, b: int| 0 <= a < b < order@.len() ==> #[trigger] order@[a] != #[trigger] order@[b],
        forall|i: int| 0 <= i < old(extras)@.len() ==> #[trigger] old(extras)@[i] < usize::MAX,
    ensures
        final(extras)@.len() == old(extras)@.len(),
        forall|i: int|
            0 <= i < final(extras)@.len() ==> #[trigger] final(extras)@[i] == old(extras)@[i] + if among_first(
                order@,
                remainder as int,
                i,
            ) {
                1int
            } else {
                0int
            },
        seq_sum(final(extras)@) == seq_sum(old(extras)@) + if (remainder as int) < order@.len() {
            remainder as int
        } else {
            order@.len() as int
        },
{
    let ghost original = extras@;
    let mut left = remainder;
    let mut position: usize = 0;
    while position < order.len()
        invariant_except_break
            left == remainder - position,
        invariant
            position <= order@.len(),
            position <= remainder,
            extras@.len() == original.len(),
            forall|j: int| 0 <= j < order@.len() ==> #[trigger] order@[j] < original.len(),
            forall|a: int, b: int|
                0 <= a < b < order@.len() ==> #[trigger] order@[a] != #[trigger] order@[b],
            forall|i: int| 0 <= i < original.len() ==> #[trigger] original[i] < usize::MAX,
            forall|i: int|
                0 <= i < extras@.len() ==> #[trigger] extras@[i] == original[i] + if among_first(
                    order@,
                    position as int,
                    i,
                ) {
                    1int
                } else {
                    0int
                },
            seq_sum(extras@) == seq_sum(original) + position,
        ensures
            position == if (remainder as int) < order@.len() {
                remainder as int
            } else {
                order@.len() as int
            },
        decreases order@.len() - position,
    {
        if left == 0 {
            break;
        }
        let index = order[position];
        proof {
            assert(!among_first(order@, position as int, index as int)) by {
                if among_first(order@, position as int, index as int) {
                    let j = choose|j: int|
                        0 <= j < position && j < order@.len() && order@[j] == index;
                    assert(order@[j] != order@[position as int]);
                }
            }
            assert(extras@[index as int] == original[index as int]);
            lemma_seq_sum_increment(extras@, index as int);
        }
        let ghost before = extras@;
        extras.set(index, extras[index] + 1);
        left = left - 1;
        position = position + 1;
        proof {
            assert forall|i: int| 0 <= i < extras@.len() implies #[trigger] extras@[i] == original[i]
                + if among_first(order@, position as int, i) {
                1int
            } else {
                0int
            } by {
                if i == index {
                    assert(order@[position - 1] == i);
                    assert(among_first(order@, position as int, i));
                } else {
                    assert(before[i] == extras@[i]);
                    if among_first(order@, position as int, i) {
                        let j = choose|j: int|
                            0 <= j < position && j < order@.len() && order@[j] == i;
                        assert(j < position - 1);
                        assert(among_first(order@, position - 1, i));
                    }
                    if among_first(order@, position - 1, i) {
                        let j = choose|j: int|
                            0 <= j < position - 1 && j < order@.len() && order@[j] == i;
                        assert(among_first(order@, position as int, i));
                    }
                }
            }
        }
    }
    proof {
        assert forall|i: int| 0 <= i < extras@.len() implies among_first(
            order@,
            position as int,
            i,
        ) == among_first(order@, remainder as int, i) by {
            if among_first(order@, position as int, i) {
                let j = choose|j: int| 0 <= j < position && j < order@.len() && order@[j] == i;
                assert(among_first(order@, remainder as int, i));
            }
            if among_first(order@, remainder as int, i) {
                let j = choose|j: int| 0 <= j < remainder && j < order@.len() && order@[j] == i;
                assert(among_first(order@, position as int, i));
            }
        }
    }
}

/// Ends of consecutive segments of lengths `1 + extras[i]`.
pub open spec fn cumulative_end(extras: Seq<usize>, i: int) -> int {
    i + 1 + seq_sum(extras.subrange(0, i + 1))
}

/// The ends of consecutive segments of lengths `1 + extras[i]`, starting at
/// zero: strictly increasing, and the last one is the total length.
pub fn cumulative_ends(extras: &[usize]) -> (r: Vec<usize>)
    requires
        extras@.len() + seq_sum(extras@) <= usize::MAX,
    ensures
        r@.len() == extras@.len(),
        forall|i: int| 0 <= i < r@.len() ==> #[trigger] r@[i] == cumulative_end(extras@, i),
        extras@.len() > 0 ==> r@.last() == extras@.len() + seq_sum(extras@),
        extras@.len() > 0 ==> valid_breakpoints(
            r@,
            extras@.len() + seq_sum(extras@),
            1,
        ),
{
    let mut ends: Vec<usize> = Vec::new();
    let mut end: usize = 0;
    let mut index: usize = 0;
    while index < extras.len()
        invariant
            index <= extras@.len(),
            extras@.len() + seq_sum(extras@) <= usize::MAX,
            ends@.len() == index,
            end == index + seq_sum(extras@.subrange(0, index as int)),
            forall|i: int| 0 <= i < index ==> #[trigger] ends@[i] == cumulative_end(extras@, i),
        decreases extras@.len() - index,
    {
        proof {
            lemma_seq_sum_prefix(extras@, index as int);
            lemma_seq_sum_bounds(extras@, index as int + 1);
        }
        end = end + 1 + extras[index];
        ends.push(end);
        index = index + 1;
    }
    proof {
        let n = extras@.len() as int;
        if n > 0 {
            assert(extras@.subrange(0, n) =~= extras@);
            assert forall|i: int| 0 <= i < n implies #[trigger] segment_start(ends@, i) + 1 <= ends@[i]
                && ends@[i] <= n + seq_sum(extras@) by {
                lemma_seq_sum_prefix(extras@, i);
                lemma_seq_sum_bounds(extras@, i + 1);
                lemma_seq_sum_nonnegative(extras@.subrange(0, i));
                if i > 0 {
                    assert(ends@[i - 1] == cumulative_end(extras@, i - 1));
                }
            }
        }
    }
    ends
}

} // verus!
