use vstd::prelude::*;

use crate::dynp::{lemma_state_index, lemma_state_index_distinct, try_filled_vec};
use crate::error::Error;
use crate::segmentation::{segment_start, valid_breakpoints};

verus! {

/// Checks what the scalar weighted L1-Potts solver needs of its input: one
/// feature, and one weight per observation when weights are given.
pub fn validate_potts_input(n_features: usize, n_values: usize, weights_len: Option<usize>) -> (r:
    Result<(), Error>)
    ensures
        r == (if n_features != 1 {
            Err(Error::ScalarSignalRequired { model: "L1Potts", actual: n_features })
        } else if weights_len is Some && weights_len.unwrap() != n_values {
            Err(Error::InvalidWeightsLength { expected: n_values, actual: weights_len.unwrap() })
        } else {
            Ok(())
        }),
{
    if n_features != 1 {
        return Err(Error::ScalarSignalRequired { model: "L1Potts", actual: n_features });
    }
    match weights_len {
        Some(actual) => {
            if actual != n_values {
                return Err(Error::InvalidWeightsLength { expected: n_values, actual });
            }
        },
        None => {},
    }
    Ok(())
}

/// Positions `i` in `1..upto` where the state differs from the state before.
pub open spec fn state_changes(states: Seq<usize>, upto: int) -> Seq<usize>
    decreases upto,
{
    if upto <= 1 {
        Seq::empty()
    } else {
        let prefix = state_changes(states, upto - 1);
        if states[upto - 1] != states[upto - 2] {
            prefix.push((upto - 1) as usize)
        } else {
            prefix
        }
    }
}

/// The breakpoints of a piecewise-constant state path: every state change,
/// then the end of the signal.
pub open spec fn state_breakpoints(states: Seq<usize>) -> Seq<usize> {
    state_changes(states, states.len() as int).push(states.len() as usize)
}

proof fn lemma_state_changes_shape(states: Seq<usize>, upto: int)
    requires
        upto <= states.len(),
        upto <= usize::MAX,
    ensures
        forall|i: int|
            0 <= i < state_changes(states, upto).len() ==> 1 <= #[trigger] state_changes(
                states,
                upto,
            )[i] < upto,
        forall|i: int, j: int|
            0 <= i < j < state_changes(states, upto).len() ==> #[trigger] state_changes(
                states,
                upto,
            )[i] < #[trigger] state_changes(states, upto)[j],
    decreases upto,
{
    if upto > 1 {
        lemma_state_changes_shape(states, upto - 1);
        let prefix = state_changes(states, upto - 1);
        let s = state_changes(states, upto);
        assert(s == if states[upto - 1] != states[upto - 2] {
            prefix.push((upto - 1) as usize)
        } else {
            prefix
        });
        assert forall|i: int| 0 <= i < s.len() implies 1 <= #[trigger] s[i] < upto by {
            if i < prefix.len() {
                assert(s[i] == prefix[i]);
            }
        }
        assert forall|i: int, j: int| 0 <= i < j < s.len() implies #[trigger] s[i] < #[trigger] s[j] by {
            if j < prefix.len() {
                assert(s[i] == prefix[i]);
                assert(s[j] == prefix[j]);
            } else {
                assert(s[i] == prefix[i]);
            }
        }
    }
}

proof fn lemma_state_changes_members(states: Seq<usize>, upto: int)
    requires
        upto <= states.len(),
        upto <= usize::MAX,
    ensures
        forall|x: usize|
            #[trigger] state_changes(states, upto).contains(x) <==> (1 <= x < upto && states[x as int]
                != states[x - 1]),
    decreases upto,
{
    if upto > 1 {
        lemma_state_changes_members(states, upto - 1);
        let prefix = state_changes(states, upto - 1);
        let c = state_changes(states, upto);
        assert forall|x: usize| #[trigger] c.contains(x) <==> (1 <= x < upto && states[x as int]
            != states[x - 1]) by {
            if states[upto - 1] != states[upto - 2] {
                assert(c == prefix.push((upto - 1) as usize));
                if c.contains(x) && x != (upto - 1) as usize {
                    let k = choose|k: int| 0 <= k < c.len() && c[k] == x;
                    assert(k < prefix.len());
                    assert(prefix.contains(x));
                }
                if prefix.contains(x) {
                    let k = choose|k: int| 0 <= k < prefix.len() && prefix[k] == x;
                    assert(c[k] == x);
                }
                if x == (upto - 1) as usize {
                    assert(c[prefix.len() as int] == x);
                }
            } else {
                assert(c == prefix);
            }
        }
    }
}

/// The breakpoints of a state path are exactly the samples whose state
/// differs from the one before, in increasing order, followed by the length
/// of the path.
pub proof fn lemma_state_breakpoints_mark_changes(states: Seq<usize>)
    requires
        states.len() >= 1,
        states.len() <= usize::MAX,
    ensures
        state_breakpoints(states).last() == states.len(),
        forall|x: usize|
            1 <= x < states.len() ==> (#[trigger] state_breakpoints(states).contains(x) <==> states[x as int]
                != states[x - 1]),
        forall|k: int|
            0 <= k < state_breakpoints(states).len() - 1 ==> {
                let x = #[trigger] state_breakpoints(states)[k];
                &&& 1 <= x < states.len()
                &&& states[x as int] != states[x - 1]
            },
        forall|i: int, j: int|
            0 <= i < j < state_breakpoints(states).len() ==> #[trigger] state_breakpoints(states)[i]
                < #[trigger] state_breakpoints(states)[j],
{
    let n = states.len() as int;
    lemma_state_changes_members(states, n);
    lemma_state_changes_shape(states, n);
    let c = state_changes(states, n);
    let b = state_breakpoints(states);
    assert(b == c.push(n as usize));
    assert forall|x: usize| 1 <= x < n implies (#[trigger] b.contains(x) <==> states[x as int]
        != states[x - 1]) by {
        if b.contains(x) {
            let k = choose|k: int| 0 <= k < b.len() && b[k] == x;
            if k < c.len() {
                assert(c.contains(x));
            }
        }
        if c.contains(x) {
            let k = choose|k: int| 0 <= k < c.len() && c[k] == x;
            assert(b[k] == x);
        }
    }
    assert forall|k: int| 0 <= k < b.len() - 1 implies {
        let x = #[trigger] b[k];
        &&& 1 <= x < n
        &&& states[x as int] != states[x - 1]
    } by {
        assert(b[k] == c[k]);
        assert(c.contains(c[k]));
    }
    assert forall|i: int, j: int| 0 <= i < j < b.len() implies #[trigger] b[i] < #[trigger] b[j] by {
        assert(b[i] == c[i]);
        if j < c.len() {
            assert(b[j] == c[j]);
        }
    }
}

/// The breakpoints of every state path form a valid segmentation with
/// segments of at least one sample.
pub proof fn lemma_state_breakpoints_valid(states: Seq<usize>)
    requires
        states.len() >= 1,
        states.len() <= usize::MAX,
    ensures
        valid_breakpoints(state_breakpoints(states), states.len() as int, 1),
{
    let n = states.len() as int;
    lemma_state_changes_shape(states, n);
    let c = state_changes(states, n);
    let b = state_breakpoints(states);
    assert forall|i: int| 0 <= i < b.len() implies #[trigger] segment_start(b, i) + 1 <= b[i]
        && b[i] <= n by {
        if i < c.len() {
            assert(b[i] == c[i]);
            if i > 0 {
                assert(b[i - 1] == c[i - 1]);
                assert(c[i - 1] < c[i]);
            }
        } else if i > 0 {
            assert(b[i - 1] == c[i - 1]);
        }
    }
}

/// Writes out the breakpoints of a state path.
pub fn breakpoints_from_states(states: &[usize]) -> (r: Vec<usize>)
    requires
        states@.len() >= 1,
    ensures
        r@ == state_breakpoints(states@),
        valid_breakpoints(r@, states@.len() as int, 1),
{
    let n = states.len();
    let mut breakpoints: Vec<usize> = Vec::new();
    let mut sample: usize = 1;
    while sample < n
        invariant
            n == states@.len(),
            1 <= sample <= n,
            breakpoints@ == state_changes(states@, sample as int),
        decreases n - sample,
    {
        if states[sample] != states[sample - 1] {
            breakpoints.push(sample);
        }
        sample = sample + 1;
    }
    breakpoints.push(n);
    proof {
        lemma_state_breakpoints_valid(states@);
    }
    breakpoints
}

/// The parent choices of the L1-Potts forward pass: the best state after
/// each sample, and for each sample and state whether the path jumped there
/// from the best state of the previous sample.
#[derive(Clone, Debug)]
pub struct PottsPath {
    n_samples: usize,
    n_states: usize,
    best_states: Vec<usize>,
    jumped: Vec<u8>,
}

impl PottsPath {
    pub closed spec fn spec_n_samples(self) -> usize {
        self.n_samples
    }

    pub closed spec fn spec_n_states(self) -> usize {
        self.n_states
    }

    pub closed spec fn best(self, sample: int) -> usize {
        self.best_states@[sample]
    }

    /// The path reached `state` at `sample` by a jump.
    pub closed spec fn jump_at(self, sample: int, state: int) -> bool {
        self.jumped@[sample * self.n_states + state] != 0
    }

    pub closed spec fn wf(self) -> bool {
        &&& self.n_samples >= 1
        &&& self.n_states >= 1
        &&& self.best_states@.len() == self.n_samples
        &&& self.jumped@.len() == self.n_samples * self.n_states
        &&& forall|i: int| 0 <= i < self.n_samples ==> #[trigger] self.best_states@[i] < self.n_states
    }

    /// The state of the optimal path at `sample`, read back from the last
    /// sample: the best final state, then at each step either the same state
    /// or, after a jump, the best state of the previous sample.
    pub closed spec fn state_at(self, sample: int) -> usize
        decreases self.spec_n_samples() - sample,
    {
        if sample >= self.n_samples - 1 {
            self.best(self.n_samples - 1)
        } else {
            let next = self.state_at(sample + 1);
            if self.jump_at(sample + 1, next as int) {
                self.best(sample)
            } else {
                next
            }
        }
    }

    /// The state of the optimal path at every sample.
    pub open spec fn states_view(self) -> Seq<usize> {
        Seq::new(self.spec_n_samples() as nat, |i: int| self.state_at(i))
    }

    proof fn lemma_state_at_bound(self, sample: int)
        requires
            self.wf(),
            0 <= sample < self.n_samples,
        ensures
            self.state_at(sample) < self.n_states,
        decreases self.n_samples - sample,
    {
        if sample < self.n_samples - 1 {
            self.lemma_state_at_bound(sample + 1);
        }
    }

    /// The read-back follows the path itself: the last sample takes the best
    /// final state, and each earlier sample keeps the state of the next one
    /// unless the path jumped into that state there, in which case it takes
    /// the best state of its own sample.
    pub proof fn lemma_read_back_follows_jumps(self)
        requires
            self.wf(),
        ensures
            self.state_at(self.spec_n_samples() - 1) == self.best(self.spec_n_samples() - 1),
            forall|i: int|
                0 <= i < self.spec_n_samples() - 1 ==> #[trigger] self.state_at(i) == if self.jump_at(
                    i + 1,
                    self.state_at(i + 1) as int,
                ) {
                    self.best(i)
                } else {
                    self.state_at(i + 1)
                },
    {
    }

    /// Storage for `n_samples` samples over `n_states` states.
    pub fn allocate(n_samples: usize, n_states: usize) -> (r: Result<Self, Error>)
        requires
            n_samples >= 1,
            n_states >= 1,
        ensures
            match r {
                Ok(path) => path.wf() && path.spec_n_samples() == n_samples
                    && path.spec_n_states() == n_states,
                Err(e) => if n_samples * n_states > usize::MAX {
                    e == (Error::NumericalFailure {
                        context: "allocating the L1-Potts parent matrix",
                    })
                } else {
                    e == (Error::AllocationFailure {
                        context: "allocating the L1-Potts parent matrix",
                    })
                },
            },
    {
        let parent_bytes = match n_samples.checked_mul(n_states) {
            Some(value) => value,
            None => {
                return Err(Error::NumericalFailure { context: "allocating the L1-Potts parent matrix" })
            },
        };
        let best_states = try_filled_vec(n_samples, 0usize, "allocating the L1-Potts parent matrix")?;
        let jumped = try_filled_vec(parent_bytes, 0u8, "allocating the L1-Potts parent matrix")?;
        Ok(PottsPath { n_samples, n_states, best_states, jumped })
    }

    pub fn n_samples(&self) -> (r: usize)
        ensures
            r == self.spec_n_samples(),
    {
        self.n_samples
    }

    pub fn n_states(&self) -> (r: usize)
        ensures
            r == self.spec_n_states(),
    {
        self.n_states
    }

    /// The best state after `sample`.
    pub fn best_state(&self, sample: usize) -> (r: usize)
        requires
            self.wf(),
            sample < self.spec_n_samples(),
        ensures
            r == self.best(sample as int),
            r < self.spec_n_states(),
    {
        self.best_states[sample]
    }

    /// Records the best state after `sample`.
    pub fn set_best(&mut self, sample: usize, state: usize)
        requires
            old(self).wf(),
            sample < old(self).spec_n_samples(),
            state < old(self).spec_n_states(),
        ensures
            final(self).wf(),
            final(self).spec_n_samples() == old(self).spec_n_samples(),
            final(self).spec_n_states() == old(self).spec_n_states(),
            final(self).best(sample as int) == state,
            forall|i: int| 0 <= i < final(self).spec_n_samples() && i != sample ==> #[trigger] final(self).best(i)
                == old(self).best(i),
            forall|i: int, s: int| #[trigger] final(self).jump_at(i, s) == old(self).jump_at(i, s),
    {
        self.best_states.set(sample, state);
    }

    /// Records whether the path at (`sample`, `state`) arrived by a jump.
    pub fn set_jump(&mut self, sample: usize, state: usize, jumped: bool)
        requires
            old(self).wf(),
            sample < old(self).spec_n_samples(),
            state < old(self).spec_n_states(),
        ensures
            final(self).wf(),
            final(self).spec_n_samples() == old(self).spec_n_samples(),
            final(self).spec_n_states() == old(self).spec_n_states(),
            final(self).jump_at(sample as int, state as int) == jumped,
            forall|i: int, s: int|
                0 <= i < final(self).spec_n_samples() && 0 <= s < final(self).spec_n_states() && (i
                    != sample || s != state) ==> #[trigger] final(self).jump_at(i, s) == old(
                    self,
                ).jump_at(i, s),
            forall|i: int| #[trigger] final(self).best(i) == old(self).best(i),
    {
        let k = self.n_states;
        let total = self.jumped.len();
        proof {
            lemma_state_index(sample as int, state as int, k as int, self.n_samples as int);
        }
        assert(sample * k + state < total);
        let offset = sample * k;
        let ghost before = *self;
        self.jumped.set(offset + state, if jumped { 1u8 } else { 0u8 });
        proof {
            assert forall|i: int, s: int|
                0 <= i < self.n_samples && 0 <= s < k && (i != sample || s != state) implies #[trigger] self.jump_at(
                i,
                s,
            ) == before.jump_at(i, s) by {
                lemma_state_index_distinct(i, s, sample as int, state as int, k as int);
                lemma_state_index(i, s, k as int, self.n_samples as int);
            }
        }
    }

    /// The state of the optimal path at every sample.
    pub fn states(&self) -> (r: Vec<usize>)
        requires
            self.wf(),
        ensures
            r@.len() == self.spec_n_samples(),
            forall|i: int| 0 <= i < self.spec_n_samples() ==> #[trigger] r@[i] == self.state_at(i),
            forall|i: int| 0 <= i < self.spec_n_samples() ==> #[trigger] r@[i] < self.spec_n_states(),
            r@[self.spec_n_samples() - 1] == self.best(self.spec_n_samples() - 1),
            forall|i: int|
                0 <= i < self.spec_n_samples() - 1 ==> #[trigger] r@[i] == if self.jump_at(
                    i + 1,
                    r@[i + 1] as int,
                ) {
                    self.best(i)
                } else {
                    r@[i + 1]
                },
    {
        let n = self.n_samples;
        let k = self.n_states;
        let total = self.jumped.len();
        let mut states: Vec<usize> = Vec::new();
        let mut fill: usize = 0;
        while fill < n
            invariant
                fill <= n,
                states@.len() == fill,
            decreases n - fill,
        {
            states.push(0);
            fill = fill + 1;
        }
        let mut state = self.best_states[n - 1];
        states.set(n - 1, state);
        let mut sample: usize = n - 1;
        proof {
            self.lemma_state_at_bound(n - 1);
        }
        while sample > 0
            invariant
                self.wf(),
                n == self.n_samples,
                k == self.n_states,
                total == self.jumped@.len(),
                sample < n,
                states@.len() == n,
                state == self.state_at(sample as int),
                state < k,
                forall|i: int| sample <= i < n ==> #[trigger] states@[i] == self.state_at(i),
            decreases sample,
        {
            proof {
                lemma_state_index(sample as int, state as int, k as int, n as int);
            }
            assert(sample * k + state < total);
            let offset = sample * k;
            if self.jumped[offset + state] != 0 {
                state = self.best_states[sample - 1];
            }
            states.set(sample - 1, state);
            sample = sample - 1;
            proof {
                self.lemma_state_at_bound(sample as int);
            }
        }
        proof {
            assert forall|i: int| 0 <= i < n implies #[trigger] states@[i] < k by {
                self.lemma_state_at_bound(i);
            }
            assert forall|i: int| 0 <= i < n - 1 implies #[trigger] states@[i] == if self.jump_at(
                i + 1,
                states@[i + 1] as int,
            ) {
                self.best(i)
            } else {
                states@[i + 1]
            } by {
                assert(states@[i + 1] == self.state_at(i + 1));
                assert(states@[i] == self.state_at(i));
            }
        }
        states
    }

    /// The breakpoints of the optimal path.
    pub fn breakpoints(&self) -> (r: Vec<usize>)
        requires
            self.wf(),
        ensures
            valid_breakpoints(r@, self.spec_n_samples() as int, 1),
            r@ == state_breakpoints(Seq::new(self.spec_n_samples() as nat, |i: int| self.state_at(i))),
            r@ == state_breakpoints(self.states_view()),
            self.states_view()[self.spec_n_samples() - 1] == self.best(self.spec_n_samples() - 1),
            forall|i: int|
                0 <= i < self.spec_n_samples() - 1 ==> #[trigger] self.states_view()[i] == if self.jump_at(
                    i + 1,
                    self.states_view()[i + 1] as int,
                ) {
                    self.best(i)
                } else {
                    self.states_view()[i + 1]
                },
    {
        let states = self.states();
        proof {
            assert(states@ =~= Seq::new(self.n_samples as nat, |i: int| self.state_at(i)));
            assert(states@ =~= self.states_view());
        }
        breakpoints_from_states(states.as_slice())
    }
}

} // verus!
