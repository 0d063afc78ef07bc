use vstd::prelude::*;

use crate::error::Error;

verus! {

/// Increment of the SplitMix64 state per draw (the golden-ratio constant).
pub const SPLITMIX_INCREMENT: u64 = 0x9e37_79b9_7f4a_7c15;

/// First multiplier of the SplitMix64 output mix.
pub const SPLITMIX_FIRST_MULTIPLIER: u64 = 0xbf58_476d_1ce4_e5b9;

/// Second multiplier of the SplitMix64 output mix.
pub const SPLITMIX_SECOND_MULTIPLIER: u64 = 0x94d0_49bb_1331_11eb;

/// The state after one draw.
pub open spec fn splitmix_advance(state: u64) -> u64 {
    state.wrapping_add(SPLITMIX_INCREMENT)
}

/// The output drawn from an advanced state.
pub open spec fn splitmix_mix(z: u64) -> u64 {
    let a = (z ^ (z >> 30u64)).wrapping_mul(SPLITMIX_FIRST_MULTIPLIER);
    let b = (a ^ (a >> 27u64)).wrapping_mul(SPLITMIX_SECOND_MULTIPLIER);
    b ^ (b >> 31u64)
}

/// The state after `draws` draws from `seed`.
pub open spec fn splitmix_state_after(seed: u64, draws: nat) -> u64
    decreases draws,
{
    if draws == 0 {
        seed
    } else {
        splitmix_advance(splitmix_state_after(seed, (draws - 1) as nat))
    }
}

/// The `draw`-th output (counting from one) of the generator seeded with
/// `seed`.
pub open spec fn splitmix_output(seed: u64, draw: nat) -> u64 {
    splitmix_mix(splitmix_state_after(seed, draw))
}

/// Two distinct sample indices below `n_samples` taken from two draws: the
/// first draw picks the left index, the second one of the other indices.
pub open spec fn sampled_pair(first: u64, second: u64, n_samples: usize) -> (usize, usize) {
    let left = ((first as usize) % n_samples) as usize;
    let right = ((second as usize) % ((n_samples - 1) as usize)) as usize;
    if right >= left {
        (left, (right + 1) as usize)
    } else {
        (left, right)
    }
}

/// The SplitMix64 generator: a 64-bit counter advanced by a fixed odd
/// increment, whose outputs are mixed by two multiply-xorshift rounds.
#[derive(Clone, Copy, Debug)]
pub struct SplitMix64 {
    state: u64,
}

impl SplitMix64 {
    pub closed spec fn spec_state(self) -> u64 {
        self.state
    }

    pub fn new(seed: u64) -> (r: Self)
        ensures
            r.spec_state() == seed,
    {
        SplitMix64 { state: seed }
    }

    pub fn state(&self) -> (r: u64)
        ensures
            r == self.spec_state(),
    {
        self.state
    }

    /// Advances the state and returns the mixed output.
    pub fn next_u64(&mut self) -> (r: u64)
        ensures
            final(self).spec_state() == splitmix_advance(old(self).spec_state()),
            r == splitmix_mix(final(self).spec_state()),
    {
        self.state = self.state.wrapping_add(SPLITMIX_INCREMENT);
        let z = self.state;
        let a = (z ^ (z >> 30u64)).wrapping_mul(SPLITMIX_FIRST_MULTIPLIER);
        let b = (a ^ (a >> 27u64)).wrapping_mul(SPLITMIX_SECOND_MULTIPLIER);
        b ^ (b >> 31u64)
    }

    /// Draws two distinct sample indices below `n_samples`.
    pub fn next_pair(&mut self, n_samples: usize) -> (r: (usize, usize))
        requires
            n_samples >= 2,
        ensures
            final(self).spec_state() == splitmix_advance(splitmix_advance(old(self).spec_state())),
            r == sampled_pair(
                splitmix_mix(splitmix_advance(old(self).spec_state())),
                splitmix_mix(final(self).spec_state()),
                n_samples,
            ),
            r.0 < n_samples,
            r.1 < n_samples,
            r.0 != r.1,
    {
        let first = self.next_u64();
        let second = self.next_u64();
        pair_from_draws(first, second, n_samples)
    }
}

/// Two distinct sample indices below `n_samples` from two generator draws.
pub fn pair_from_draws(first: u64, second: u64, n_samples: usize) -> (r: (usize, usize))
    requires
        n_samples >= 2,
    ensures
        r == sampled_pair(first, second, n_samples),
        r.0 < n_samples,
        r.1 < n_samples,
        r.0 != r.1,
{
    let left = (first as usize) % n_samples;
    let right = (second as usize) % (n_samples - 1);
    if right >= left {
        (left, right + 1)
    } else {
        (left, right)
    }
}

/// Checks the number of sampled pairs of a sampled-median bandwidth.
pub fn validate_gamma_sample_size(pairs: usize) -> (r: Result<(), Error>)
    ensures
        r is Ok <==> pairs > 0,
        r matches Err(e) ==> e == (Error::InvalidGammaSampleSize { value: pairs }),
{
    if pairs == 0 {
        return Err(Error::InvalidGammaSampleSize { value: pairs });
    }
    Ok(())
}

/// The `pairs` index pairs that a sampled-median bandwidth reads from a
/// signal of `n_samples` samples, drawn from a generator seeded with `seed`.
pub fn sampled_pairs(seed: u64, pairs: usize, n_samples: usize) -> (r: Result<Vec<(usize, usize)>, Error>)
    requires
        n_samples >= 2,
    ensures
        r is Ok <==> pairs > 0,
        match r {
            Ok(v) => {
                &&& v@.len() == pairs
                &&& forall|i: int|
                    0 <= i < pairs ==> #[trigger] v@[i] == sampled_pair(
                        splitmix_output(seed, (2 * i + 1) as nat),
                        splitmix_output(seed, (2 * i + 2) as nat),
                        n_samples,
                    )
                &&& forall|i: int|
                    0 <= i < pairs ==> (#[trigger] v@[i]).0 < n_samples && v@[i].1 < n_samples
                        && v@[i].0 != v@[i].1
            },
            Err(e) => e == (Error::InvalidGammaSampleSize { value: pairs }),
        },
{
    validate_gamma_sample_size(pairs)?;
    let mut rng = SplitMix64::new(seed);
    let mut out: Vec<(usize, usize)> = Vec::new();
    let mut index: usize = 0;
    while index < pairs
        invariant
            n_samples >= 2,
            index <= pairs,
            out@.len() == index,
            rng.spec_state() == splitmix_state_after(seed, (2 * index) as nat),
            forall|i: int|
                0 <= i < index ==> #[trigger] out@[i] == sampled_pair(
                    splitmix_output(seed, (2 * i + 1) as nat),
                    splitmix_output(seed, (2 * i + 2) as nat),
                    n_samples,
                ),
            forall|i: int|
                0 <= i < index ==> (#[trigger] out@[i]).0 < n_samples && out@[i].1 < n_samples
                    && out@[i].0 != out@[i].1,
        decreases pairs - index,
    {
        let pair = rng.next_pair(n_samples);
        proof {
            let k = 2 * index as int;
            assert(splitmix_state_after(seed, (k + 1) as nat) == splitmix_advance(
                splitmix_state_after(seed, k as nat),
            ));
            assert(splitmix_state_after(seed, (k + 2) as nat) == splitmix_advance(
                splitmix_state_after(seed, (k + 1) as nat),
            ));
        }
        out.push(pair);
        index = index + 1;
    }
    Ok(out)
}

} // verus!
