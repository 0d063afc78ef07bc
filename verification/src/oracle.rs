use vstd::prelude::*;

use crate::error::Error;
use crate::segmentation::{segment_start, valid_breakpoints, validate_min_size};

verus! {

/// Largest signal that exhaustive enumeration accepts.
pub const MAX_EXHAUSTIVE_SAMPLES: usize = 12;

/// `c` segments `[start, n)`: every piece, starting at `start`, has at least
/// `min_size` samples and the last one ends at `n`.
pub open spec fn valid_continuation(c: Seq<usize>, start: int, n: int, min_size: int) -> bool {
    &&& c.len() >= 1
    &&& c.last() == n
    &&& forall|i: int|
        0 <= i < c.len() ==> #[trigger] continuation_start(c, i, start) + min_size <= c[i] && c[i]
            <= n
}

pub open spec fn continuation_start(c: Seq<usize>, i: int, start: int) -> int {
    if i <= 0 {
        start
    } else {
        c[i - 1] as int
    }
}

/// `prefix` segments `[0, start)` into pieces of at least `min_size` samples.
pub open spec fn valid_prefix(prefix: Seq<usize>, start: int, min_size: int) -> bool {
    &&& (prefix.len() == 0 ==> start == 0)
    &&& (prefix.len() > 0 ==> prefix.last() == start)
    &&& forall|i: int|
        0 <= i < prefix.len() ==> #[trigger] segment_start(prefix, i) + min_size <= prefix[i]
}

proof fn lemma_join_valid(prefix: Seq<usize>, c: Seq<usize>, start: int, n: int, min_size: int)
    requires
        valid_prefix(prefix, start, min_size),
        valid_continuation(c, start, n, min_size),
        min_size > 0,
    ensures
        valid_breakpoints(prefix + c, n, min_size),
{
    let b = prefix + c;
    assert forall|i: int| 0 <= i < b.len() implies #[trigger] segment_start(b, i) + min_size <= b[i]
        && b[i] <= n by {
        if i < prefix.len() {
            assert(b[i] == prefix[i]);
            assert(segment_start(prefix, i) + min_size <= prefix[i]);
            if i > 0 {
                assert(b[i - 1] == prefix[i - 1]);
            }
            // The prefix ends at `start`, which is below `n`.
            assert(prefix[i] <= start) by {
                lemma_prefix_bounded(prefix, start, min_size, i);
            }
            assert(continuation_start(c, 0, start) + min_size <= c[0] && c[0] <= n);
        } else {
            let k = i - prefix.len();
            assert(b[i] == c[k]);
            assert(continuation_start(c, k, start) + min_size <= c[k] && c[k] <= n);
            if k > 0 {
                assert(b[i - 1] == c[k - 1]);
            } else if prefix.len() > 0 {
                assert(b[i - 1] == prefix.last());
            }
        }
    }
}

proof fn lemma_prefix_bounded(prefix: Seq<usize>, start: int, min_size: int, i: int)
    requires
        valid_prefix(prefix, start, min_size),
        min_size > 0,
        0 <= i < prefix.len(),
    ensures
        prefix[i] <= start,
    decreases prefix.len() - i,
{
    if i < prefix.len() - 1 {
        lemma_prefix_bounded(prefix, start, min_size, i + 1);
        assert(segment_start(prefix, i + 1) + min_size <= prefix[i + 1]);
    }
}

#[verifier::spinoff_prover]
proof fn lemma_split_valid(b: Seq<usize>, prefix: Seq<usize>, c: Seq<usize>, start: int, n: int, min_size: int)
    requires
        b == prefix + c,
        valid_breakpoints(b, n, min_size),
        c.len() >= 1,
        prefix.len() == 0 ==> start == 0,
        prefix.len() > 0 ==> prefix.last() == start,
    ensures
        valid_continuation(c, start, n, min_size),
        valid_prefix(prefix, start, min_size),
{
    assert forall|i: int| 0 <= i < c.len() implies #[trigger] continuation_start(c, i, start)
        + min_size <= c[i] && c[i] <= n by {
        let j = i + prefix.len();
        assert(0 <= j < b.len());
        assert(b[j] == c[i]);
        assert(segment_start(b, j) + min_size <= b[j] && b[j] <= n);
        if i > 0 {
            assert(b[j - 1] == c[i - 1]);
        } else if prefix.len() > 0 {
            assert(b[j - 1] == prefix.last());
        }
    }
    assert(b[b.len() - 1] == c[c.len() - 1]);
    assert(c.last() == b.last());
    assert(valid_continuation(c, start, n, min_size));
    assert forall|i: int| 0 <= i < prefix.len() implies #[trigger] segment_start(prefix, i)
        + min_size <= prefix[i] by {
        assert(b[i] == prefix[i]);
        assert(segment_start(b, i) + min_size <= b[i] && b[i] <= n);
        if i > 0 {
            assert(b[i - 1] == prefix[i - 1]);
        }
    }
}

proof fn lemma_drop_first(c: Seq<usize>, start: int, n: int, min_size: int)
    requires
        valid_continuation(c, start, n, min_size),
        c.len() > 1,
    ensures
        valid_continuation(c.drop_first(), c[0] as int, n, min_size),
{
    let d = c.drop_first();
    assert forall|k: int| 0 <= k < d.len() implies #[trigger] continuation_start(d, k, c[0] as int)
        + min_size <= d[k] && d[k] <= n by {
        assert(d[k] == c[k + 1]);
        assert(continuation_start(c, k + 1, start) + min_size <= c[k + 1] && c[k + 1] <= n);
        if k > 0 {
            assert(d[k - 1] == c[k]);
        }
    }
    assert(d.last() == c.last());
}

fn copy_path(path: &Vec<usize>) -> (r: Vec<usize>)
    ensures
        r@ == path@,
{
    let mut copy: Vec<usize> = Vec::new();
    let mut index: usize = 0;
    while index < path.len()
        invariant
            index <= path@.len(),
            copy@ == path@.subrange(0, index as int),
        decreases path@.len() - index,
    {
        copy.push(path[index]);
        index = index + 1;
        proof {
            assert(copy@ =~= path@.subrange(0, index as int));
        }
    }
    proof {
        assert(copy@ =~= path@);
    }
    copy
}

/// The views of a sequence of vectors.
pub open spec fn views(v: Seq<Vec<usize>>) -> Seq<Seq<usize>> {
    v.map_values(|x: Vec<usize>| x@)
}

/// Segmentations extending `prefix` whose next breakpoint is at least `end`,
/// in the order of enumeration: each admissible next breakpoint in turn,
/// first closing the segmentation at `n`, then extending it further.
pub open spec fn enum_ends(prefix: Seq<usize>, n: int, min_size: int, end: int) -> Seq<Seq<usize>>
    decreases n + 1 - end,
{
    if min_size <= 0 || end > n - min_size || end < 0 {
        Seq::empty()
    } else {
        let extended = prefix.push(end as usize);
        seq![extended.push(n as usize)] + enum_ends(extended, n, min_size, end + min_size)
            + enum_ends(prefix, n, min_size, end + 1)
    }
}

/// Segmentations extending `prefix`, a segmentation of `[0, start)`.
pub open spec fn enum_from(prefix: Seq<usize>, start: int, n: int, min_size: int) -> Seq<Seq<usize>> {
    if n - start < min_size {
        Seq::empty()
    } else {
        seq![prefix.push(n as usize)] + enum_ends(prefix, n, min_size, start + min_size)
    }
}

proof fn lemma_enum_ends_sound(prefix: Seq<usize>, start: int, n: int, min_size: int, end: int)
    requires
        min_size > 0,
        0 <= start,
        start + min_size <= end,
        n <= usize::MAX,
        valid_prefix(prefix, start, min_size),
    ensures
        forall|b: Seq<usize>|
            #[trigger] enum_ends(prefix, n, min_size, end).contains(b) ==> valid_breakpoints(
                b,
                n,
                min_size,
            ),
    decreases n + 1 - end,
{
    if end <= n - min_size {
        let extended = prefix.push(end as usize);
        assert(valid_prefix(extended, end, min_size)) by {
            assert forall|i: int| 0 <= i < extended.len() implies #[trigger] segment_start(
                extended,
                i,
            ) + min_size <= extended[i] by {
                if i < prefix.len() {
                    assert(extended[i] == prefix[i]);
                    assert(segment_start(prefix, i) + min_size <= prefix[i]);
                    if i > 0 {
                        assert(extended[i - 1] == prefix[i - 1]);
                    }
                } else if prefix.len() > 0 {
                    assert(extended[i - 1] == prefix.last());
                }
            }
        }
        lemma_enum_ends_sound(extended, end, n, min_size, end + min_size);
        lemma_enum_ends_sound(prefix, start, n, min_size, end + 1);
        let first = extended.push(n as usize);
        assert(valid_breakpoints(first, n, min_size)) by {
            let c = seq![n as usize];
            assert(continuation_start(c, 0, end) == end);
            assert(valid_continuation(c, end, n, min_size));
            lemma_join_valid(extended, c, end, n, min_size);
            assert(extended + c =~= first);
        }
        let whole = enum_ends(prefix, n, min_size, end);
        let left = enum_ends(extended, n, min_size, end + min_size);
        let right = enum_ends(prefix, n, min_size, end + 1);
        assert(whole == seq![first] + left + right);
        assert forall|b: Seq<usize>| #[trigger] whole.contains(b) implies valid_breakpoints(
            b,
            n,
            min_size,
        ) by {
            let k = choose|k: int| 0 <= k < whole.len() && whole[k] == b;
            if k == 0 {
            } else if k < 1 + left.len() {
                assert(whole[k] == left[k - 1]);
                assert(left.contains(b));
            } else {
                assert(whole[k] == right[k - 1 - left.len()]);
                assert(right.contains(b));
            }
        }
    }
}

proof fn lemma_enum_ends_complete(
    prefix: Seq<usize>,
    start: int,
    n: int,
    min_size: int,
    end: int,
    c: Seq<usize>,
)
    requires
        min_size > 0,
        0 <= end,
        n <= usize::MAX,
        valid_continuation(c, start, n, min_size),
        c.len() > 1,
        c[0] >= end,
    ensures
        enum_ends(prefix, n, min_size, end).contains(prefix + c),
    decreases n + 1 - end,
{
    assert(continuation_start(c, 1, start) + min_size <= c[1] && c[1] <= n);
    assert(continuation_start(c, 0, start) + min_size <= c[0]);
    let whole = enum_ends(prefix, n, min_size, end);
    let extended = prefix.push(end as usize);
    let left = enum_ends(extended, n, min_size, end + min_size);
    let right = enum_ends(prefix, n, min_size, end + 1);
    let first = extended.push(n as usize);
    assert(whole == seq![first] + left + right);
    if c[0] == end {
        let d = c.drop_first();
        lemma_drop_first(c, start, n, min_size);
        if d.len() == 1 {
            assert(d[0] == n);
            assert(prefix + c =~= first);
            assert(whole[0] == first);
        } else {
            assert(continuation_start(d, 0, end) + min_size <= d[0]);
            lemma_enum_ends_complete(extended, end, n, min_size, end + min_size, d);
            assert(extended + d =~= prefix + c);
            let k = choose|k: int| 0 <= k < left.len() && left[k] == extended + d;
            assert(whole[1 + k] == left[k]);
        }
    } else {
        lemma_enum_ends_complete(prefix, start, n, min_size, end + 1, c);
        let k = choose|k: int| 0 <= k < right.len() && right[k] == prefix + c;
        assert(whole[1 + left.len() + k] == right[k]);
    }
}

/// Every segmentation listed by `enum_ends` extends `prefix` by at least two
/// breakpoints, the first of them no smaller than `end`.
proof fn lemma_enum_ends_shape(prefix: Seq<usize>, n: int, min_size: int, end: int)
    requires
        n <= usize::MAX,
    ensures
        forall|b: Seq<usize>|
            #[trigger] enum_ends(prefix, n, min_size, end).contains(b) ==> {
                &&& b.len() >= prefix.len() + 2
                &&& b.subrange(0, prefix.len() as int) == prefix
                &&& b[prefix.len() as int] >= end
            },
    decreases n + 1 - end,
{
    if !(min_size <= 0 || end > n - min_size || end < 0) {
        let extended = prefix.push(end as usize);
        lemma_enum_ends_shape(extended, n, min_size, end + min_size);
        lemma_enum_ends_shape(prefix, n, min_size, end + 1);
        let first = extended.push(n as usize);
        let left = enum_ends(extended, n, min_size, end + min_size);
        let right = enum_ends(prefix, n, min_size, end + 1);
        let whole = enum_ends(prefix, n, min_size, end);
        assert(whole == seq![first] + left + right);
        let p = prefix.len() as int;
        assert forall|b: Seq<usize>| #[trigger] whole.contains(b) implies {
            &&& b.len() >= prefix.len() + 2
            &&& b.subrange(0, p) == prefix
            &&& b[p] >= end
        } by {
            let k = choose|k: int| 0 <= k < whole.len() && whole[k] == b;
            if k == 0 {
                assert(b == first);
                assert(first.subrange(0, p) =~= prefix);
            } else if k < 1 + left.len() {
                assert(whole[k] == left[k - 1]);
                assert(left.contains(b));
                assert(b.subrange(0, p) =~= b.subrange(0, p + 1).subrange(0, p));
                assert(b[p] == b.subrange(0, p + 1)[p]);
                assert(extended.subrange(0, p) =~= prefix);
            } else {
                assert(whole[k] == right[k - 1 - left.len()]);
                assert(right.contains(b));
            }
        }
    }
}

/// `enum_ends` lists no segmentation twice.
proof fn lemma_enum_ends_distinct(prefix: Seq<usize>, n: int, min_size: int, end: int)
    requires
        n <= usize::MAX,
    ensures
        enum_ends(prefix, n, min_size, end).no_duplicates(),
    decreases n + 1 - end,
{
    if !(min_size <= 0 || end > n - min_size || end < 0) {
        let extended = prefix.push(end as usize);
        lemma_enum_ends_shape(extended, n, min_size, end + min_size);
        lemma_enum_ends_shape(prefix, n, min_size, end + 1);
        lemma_enum_ends_distinct(extended, n, min_size, end + min_size);
        lemma_enum_ends_distinct(prefix, n, min_size, end + 1);
        let first = extended.push(n as usize);
        let left = enum_ends(extended, n, min_size, end + min_size);
        let right = enum_ends(prefix, n, min_size, end + 1);
        let whole = enum_ends(prefix, n, min_size, end);
        assert(whole == seq![first] + left + right);
        let p = prefix.len() as int;
        assert forall|i: int, j: int|
            0 <= i < whole.len() && 0 <= j < whole.len() && i != j implies whole[i] != whole[j] by {
            // The position of each index: 0 is `first`, then `left`, then `right`.
            if i > 0 && i < 1 + left.len() {
                assert(whole[i] == left[i - 1]);
                assert(left.contains(whole[i]));
                assert(whole[i][p] == whole[i].subrange(0, p + 1)[p]);
            } else if i >= 1 + left.len() {
                assert(whole[i] == right[i - 1 - left.len()]);
                assert(right.contains(whole[i]));
            }
            if j > 0 && j < 1 + left.len() {
                assert(whole[j] == left[j - 1]);
                assert(left.contains(whole[j]));
                assert(whole[j][p] == whole[j].subrange(0, p + 1)[p]);
            } else if j >= 1 + left.len() {
                assert(whole[j] == right[j - 1 - left.len()]);
                assert(right.contains(whole[j]));
            }
            if i == 0 {
                assert(whole[i] == first);
                assert(first[p] == end);
            }
            if j == 0 {
                assert(whole[j] == first);
                assert(first[p] == end);
            }
        }
    }
}

/// `enum_from` lists no segmentation twice.
proof fn lemma_enum_from_distinct(prefix: Seq<usize>, start: int, n: int, min_size: int)
    requires
        n <= usize::MAX,
    ensures
        enum_from(prefix, start, n, min_size).no_duplicates(),
{
    if n - start >= min_size {
        lemma_enum_ends_shape(prefix, n, min_size, start + min_size);
        lemma_enum_ends_distinct(prefix, n, min_size, start + min_size);
        let first = prefix.push(n as usize);
        let rest = enum_ends(prefix, n, min_size, start + min_size);
        let whole = enum_from(prefix, start, n, min_size);
        assert(whole == seq![first] + rest);
        assert forall|i: int, j: int|
            0 <= i < whole.len() && 0 <= j < whole.len() && i != j implies whole[i] != whole[j] by {
            if i > 0 {
                assert(whole[i] == rest[i - 1]);
                assert(rest.contains(whole[i]));
            }
            if j > 0 {
                assert(whole[j] == rest[j - 1]);
                assert(rest.contains(whole[j]));
            }
        }
    }
}

/// Every segmentation of `[0, n_samples)` into segments of at least
/// `min_size` samples, for a small signal: the reference against which the
/// exact detectors are checked.
pub fn enumerate_partitions(n_samples: usize, min_size: usize) -> (r: Result<Vec<Vec<usize>>, Error>)
    ensures
        match r {
            Ok(partitions) => {
                &&& min_size > 0 && 0 < n_samples <= MAX_EXHAUSTIVE_SAMPLES
                &&& views(partitions@) == enum_from(
                    Seq::empty(),
                    0,
                    n_samples as int,
                    min_size as int,
                )
                &&& forall|b: Seq<usize>|
                    #[trigger] views(partitions@).contains(b) ==> valid_breakpoints(
                        b,
                        n_samples as int,
                        min_size as int,
                    )
                &&& forall|b: Seq<usize>|
                    valid_breakpoints(b, n_samples as int, min_size as int) ==> #[trigger] views(
                        partitions@,
                    ).contains(b)
                &&& views(partitions@).no_duplicates()
            },
            Err(e) => if min_size == 0 {
                e == (Error::InvalidMinSize { value: min_size })
            } else if n_samples > MAX_EXHAUSTIVE_SAMPLES {
                e == (Error::ExhaustiveLimitExceeded {
                    actual: n_samples,
                    maximum: MAX_EXHAUSTIVE_SAMPLES,
                })
            } else {
                n_samples == 0 && e == Error::EmptySignal
            },
        },
{
    validate_min_size(min_size)?;
    if n_samples > MAX_EXHAUSTIVE_SAMPLES {
        return Err(
            Error::ExhaustiveLimitExceeded {
                actual: n_samples,
                maximum: MAX_EXHAUSTIVE_SAMPLES,
            },
        );
    }
    if n_samples == 0 {
        return Err(Error::EmptySignal);
    }
    let mut partitions: Vec<Vec<usize>> = Vec::new();
    let mut current: Vec<usize> = Vec::new();
    let ghost empty = current@;
    enumerate_from(0, n_samples, min_size, &mut current, &mut partitions);
    proof {
        let n = n_samples as int;
        let m = min_size as int;
        assert(empty =~= Seq::<usize>::empty());
        assert(views(Seq::<Vec<usize>>::empty()) =~= Seq::<Seq<usize>>::empty());
        assert(views(partitions@) =~= enum_from(empty, 0, n, m));
        lemma_enum_from_distinct(empty, 0, n, m);
        let all = enum_from(empty, 0, n, m);
        assert forall|b: Seq<usize>| #[trigger] views(partitions@).contains(b) implies valid_breakpoints(
            b,
            n,
            m,
        ) by {
            if n >= m {
                lemma_enum_ends_sound(empty, 0, n, m, m);
                let k = choose|k: int| 0 <= k < all.len() && all[k] == b;
                if k == 0 {
                    let c = seq![n_samples];
                    assert(continuation_start(c, 0, 0) == 0);
                    lemma_join_valid(empty, c, 0, n, m);
                    assert(empty + c =~= empty.push(n_samples));
                } else {
                    assert(all[k] == enum_ends(empty, n, m, m)[k - 1]);
                    assert(enum_ends(empty, n, m, m).contains(b));
                }
            }
        }
        assert forall|b: Seq<usize>| valid_breakpoints(b, n, m) implies #[trigger] views(
            partitions@,
        ).contains(b) by {
            lemma_split_valid(b, empty, b, 0, n, m);
            assert(empty + b =~= b);
            assert(continuation_start(b, 0, 0) + m <= b[0]);
            if b.len() == 1 {
                assert(b =~= empty.push(n_samples));
                assert(all[0] == b);
            } else {
                lemma_enum_ends_complete(empty, 0, n, m, m, b);
                let rest = enum_ends(empty, n, m, m);
                let k = choose|k: int| 0 <= k < rest.len() && rest[k] == empty + b;
                assert(all[1 + k] == rest[k]);
            }
        }
    }
    Ok(partitions)
}

/// Appends to `partitions` every valid segmentation that extends `current`,
/// a segmentation of `[0, start)`.
fn enumerate_from(
    start: usize,
    n_samples: usize,
    min_size: usize,
    current: &mut Vec<usize>,
    partitions: &mut Vec<Vec<usize>>,
)
    requires
        min_size > 0,
        start <= n_samples <= MAX_EXHAUSTIVE_SAMPLES,
    ensures
        final(current)@ == old(current)@,
        views(final(partitions)@) == views(old(partitions)@) + enum_from(
            old(current)@,
            start as int,
            n_samples as int,
            min_size as int,
        ),
    decreases n_samples - start,
{
    let ghost base = current@;
    let ghost before = views(partitions@);
    let ghost n = n_samples as int;
    let ghost m = min_size as int;
    if n_samples - start < min_size {
        proof {
            assert(before + Seq::<Seq<usize>>::empty() =~= before);
        }
        return ;
    }
    current.push(n_samples);
    let copy = copy_path(current);
    partitions.push(copy);
    current.pop();
    proof {
        assert(current@ =~= base);
        assert(views(partitions@) =~= before.push(base.push(n_samples)));
    }
    let first_end = start + min_size;
    let last_end = n_samples - min_size;
    let mut end = first_end;
    while end <= last_end
        invariant
            min_size > 0,
            m == min_size,
            n == n_samples,
            start <= n_samples <= MAX_EXHAUSTIVE_SAMPLES,
            first_end == start + min_size,
            last_end == n_samples - min_size,
            first_end <= end,
            end <= last_end + 1 || end == first_end,
            current@ == base,
            views(partitions@) + enum_ends(base, n, m, end as int) == before + seq![
                base.push(n_samples),
            ] + enum_ends(base, n, m, first_end as int),
        decreases last_end + 1 - end,
    {
        let ghost middle = views(partitions@);
        current.push(end);
        let ghost extended = current@;
        enumerate_from(end, n_samples, min_size, current, partitions);
        current.pop();
        proof {
            assert(current@ =~= base);
            assert(extended == base.push(end));
            let appended = enum_from(extended, end as int, n, m);
            assert(appended == seq![extended.push(n_samples)] + enum_ends(
                extended,
                n,
                m,
                end + m,
            ));
            assert(enum_ends(base, n, m, end as int) == appended + enum_ends(base, n, m, end + 1));
            assert(views(partitions@) == middle + appended);
            assert(views(partitions@) + enum_ends(base, n, m, end + 1) =~= middle + enum_ends(
                base,
                n,
                m,
                end as int,
            ));
        }
        end = end + 1;
    }
    proof {
        assert(enum_ends(base, n, m, end as int) == Seq::<Seq<usize>>::empty());
        assert(views(partitions@) =~= views(partitions@) + enum_ends(base, n, m, end as int));
        assert(before + seq![base.push(n_samples)] + enum_ends(base, n, m, first_end as int)
            =~= before + enum_from(base, start as int, n, m));
    }
}

} // verus!
