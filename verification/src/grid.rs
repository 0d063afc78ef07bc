use vstd::prelude::*;

use crate::error::Error;

verus! {

// ---------------------------------------------------------------------------
// Arithmetic helpers
// ---------------------------------------------------------------------------

/// `k * j <= x` exactly when `k <= x / j`.
pub proof fn lemma_mul_le_iff_le_div(k: int, x: int, j: int)
    requires
        j > 0,
        k >= 0,
        x >= 0,
    ensures
        (k * j <= x) <==> (k <= x / j),
{
    let q = x / j;
    let r = x % j;
    vstd::arithmetic::div_mod::lemma_fundamental_div_mod(x, j);
    vstd::arithmetic::div_mod::lemma_mod_bound(x, j);
    assert((k * j <= x) <==> (k <= q)) by (nonlinear_arith)
        requires
            x == j * q + r,
            0 <= r < j,
            j > 0,
            k >= 0,
    ;
}

// ---------------------------------------------------------------------------
// Candidate breakpoint positions
// ---------------------------------------------------------------------------

/// Number of positive multiples of `jump` strictly below `n_samples`.
pub open spec fn internal_count(n_samples: int, jump: int) -> int {
    if n_samples <= 0 {
        0
    } else {
        (n_samples - 1) / jump
    }
}

/// The `i`-th candidate position: `0`, then the positive multiples of `jump`
/// below `n_samples`, then `n_samples` itself.
pub open spec fn grid_position(n_samples: int, jump: int, i: int) -> int {
    if i == 0 {
        0
    } else if i <= internal_count(n_samples, jump) {
        i * jump
    } else {
        n_samples
    }
}

/// All candidate positions of a search grid, in increasing order.
pub open spec fn grid_positions(n_samples: int, jump: int) -> Seq<usize> {
    Seq::new(
        (internal_count(n_samples, jump) + 2) as nat,
        |i: int| grid_position(n_samples, jump, i) as usize,
    )
}

pub open spec fn strictly_increasing(s: Seq<usize>) -> bool {
    forall|i: int, j: int| 0 <= i < j < s.len() ==> s[i] < s[j]
}

/// Candidate positions of a nonempty signal are strictly increasing, start at
/// zero, end at the signal length, and every internal one is a multiple of
/// `jump`.
pub proof fn lemma_grid_positions_shape(n_samples: int, jump: int)
    requires
        1 <= n_samples <= usize::MAX,
        jump > 0,
    ensures
        ({
            let p = grid_positions(n_samples, jump);
            &&& p.len() == internal_count(n_samples, jump) + 2
            &&& p[0] == 0
            &&& p.last() == n_samples
            &&& strictly_increasing(p)
            &&& forall|i: int| 0 < i < p.len() - 1 ==> #[trigger] p[i] == i * jump
            &&& forall|i: int| 0 <= i < p.len() ==> #[trigger] p[i] <= n_samples
        }),
{
    let c = internal_count(n_samples, jump);
    lemma_mul_le_iff_le_div(c, n_samples - 1, jump);
    assert(c * jump <= n_samples - 1);
    let p = grid_positions(n_samples, jump);
    assert forall|i: int| 0 <= i <= c + 1 implies 0 <= #[trigger] grid_position(
        n_samples,
        jump,
        i,
    ) <= n_samples && (i <= c ==> grid_position(n_samples, jump, i) < n_samples) by {
        if 0 < i <= c {
            assert(i * jump <= c * jump) by (nonlinear_arith)
                requires
                    0 < i <= c,
                    jump > 0,
            ;
            assert(i * jump >= 0) by (nonlinear_arith)
                requires
                    0 < i,
                    jump > 0,
            ;
        }
    }
    assert forall|i: int, j: int| 0 <= i < j < p.len() implies p[i] < p[j] by {
        assert(grid_position(n_samples, jump, i) < grid_position(n_samples, jump, j)) by {
            if j <= c {
                assert(i * jump < j * jump) by (nonlinear_arith)
                    requires
                        0 <= i < j,
                        jump > 0,
                ;
            }
        }
    }
}

/// The number of candidate positions, `(n_samples - 1) / jump + 2`.
pub fn candidate_position_count(n_samples: usize, jump: usize) -> (r: Result<usize, Error>)
    ensures
        match r {
            Ok(count) => n_samples > 0 && jump > 0 && count == internal_count(
                n_samples as int,
                jump as int,
            ) + 2,
            Err(e) => if n_samples == 0 {
                e == Error::EmptySignal
            } else if jump == 0 {
                e == (Error::InvalidJump { value: jump })
            } else {
                internal_count(n_samples as int, jump as int) + 2 > usize::MAX && e == (
                Error::NumericalFailure { context: "counting Dynp search-grid positions" })
            },
        },
{
    if n_samples == 0 {
        return Err(Error::EmptySignal);
    }
    if jump == 0 {
        return Err(Error::InvalidJump { value: jump });
    }
    let internal = (n_samples - 1) / jump;
    if internal > usize::MAX - 2 {
        return Err(Error::NumericalFailure { context: "counting Dynp search-grid positions" });
    }
    Ok(internal + 2)
}

/// Candidate breakpoint positions of a grid: `0`, every positive multiple of
/// `jump` below `n_samples`, and `n_samples`.
pub fn candidate_positions(n_samples: usize, jump: usize) -> (positions: Vec<usize>)
    requires
        jump > 0,
    ensures
        positions@ == grid_positions(n_samples as int, jump as int),
{
    let ghost c = internal_count(n_samples as int, jump as int);
    let mut positions: Vec<usize> = Vec::new();
    positions.push(0);
    let mut position: usize = jump;
    proof {
        if n_samples >= 1 {
            lemma_mul_le_iff_le_div(1, n_samples - 1, jump as int);
        }
    }
    while position < n_samples
        invariant_except_break
            position as int == positions@.len() * jump,
        invariant
            jump > 0,
            c == internal_count(n_samples as int, jump as int),
            1 <= positions@.len() <= c + 1,
            position as int >= n_samples ==> positions@.len() == c + 1,
            forall|i: int|
                0 <= i < positions@.len() ==> #[trigger] positions@[i] == grid_position(
                    n_samples as int,
                    jump as int,
                    i,
                ),
        ensures
            positions@.len() == c + 1,
            forall|i: int|
                0 <= i < positions@.len() ==> #[trigger] positions@[i] == grid_position(
                    n_samples as int,
                    jump as int,
                    i,
                ),
        decreases usize::MAX - position,
    {
        let ghost k = positions@.len() as int;
        proof {
            lemma_mul_le_iff_le_div(k, n_samples - 1, jump as int);
            lemma_mul_le_iff_le_div(k + 1, n_samples - 1, jump as int);
            assert((k + 1) * jump == k * jump + jump) by (nonlinear_arith);
        }
        positions.push(position);
        match position.checked_add(jump) {
            Some(next) => position = next,
            None => {
                break ;
            },
        }
    }
    positions.push(n_samples);
    proof {
        assert(positions@ =~= grid_positions(n_samples as int, jump as int));
    }
    positions
}

/// Number of leading entries of the sorted `positions[..limit]` that are at
/// least `min_size` before `end`: the starts of admissible segments ending
/// at `end`.
pub fn valid_start_count(positions: &[usize], limit: usize, end: usize, min_size: usize) -> (r:
    usize)
    requires
        limit <= positions@.len(),
        forall|i: int, j: int| 0 <= i < j < limit ==> positions@[i] <= positions@[j],
        forall|i: int| 0 <= i < limit ==> #[trigger] positions@[i] <= end,
    ensures
        r <= limit,
        forall|i: int| 0 <= i < r ==> end - #[trigger] positions@[i] >= min_size,
        forall|i: int| r <= i < limit ==> end - #[trigger] positions@[i] < min_size,
{
    let mut low: usize = 0;
    let mut high: usize = limit;
    while low < high
        invariant
            low <= high <= limit,
            limit <= positions@.len(),
            forall|i: int, j: int| 0 <= i < j < limit ==> positions@[i] <= positions@[j],
            forall|i: int| 0 <= i < limit ==> #[trigger] positions@[i] <= end,
            forall|i: int| 0 <= i < low ==> end - #[trigger] positions@[i] >= min_size,
            forall|i: int| high <= i < limit ==> end - #[trigger] positions@[i] < min_size,
        decreases high - low,
    {
        let middle = low + (high - low) / 2;
        if end - positions[middle] >= min_size {
            low = middle + 1;
        } else {
            high = middle;
        }
    }
    low
}

} // verus!
