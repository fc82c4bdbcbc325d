use vstd::prelude::*;

verus! {

/// The increment added to the state at every step.
pub const SPLITMIX_GAMMA: u64 = 0x9E37_79B9_7F4A_7C15u64;

/// The output mixing function applied to the advanced state.
pub open spec fn splitmix_mix(z: u64) -> u64 {
    let z1 = (z ^ (z >> 30u64)).wrapping_mul(0xBF58_476D_1CE4_E5B9u64);
    let z2 = (z1 ^ (z1 >> 27u64)).wrapping_mul(0x94D0_49BB_1331_11EBu64);
    z2 ^ (z2 >> 31u64)
}

/// The state after one step.
pub open spec fn splitmix_next_state(state: u64) -> u64 {
    state.wrapping_add(SPLITMIX_GAMMA)
}

/// The word produced by the step taken from `state`.
pub open spec fn splitmix_output(state: u64) -> u64 {
    splitmix_mix(splitmix_next_state(state))
}

/// The state after `steps` steps.
pub open spec fn splitmix_advance(state: u64, steps: nat) -> u64
    decreases steps,
{
    if steps == 0 {
        state
    } else {
        splitmix_advance(splitmix_next_state(state), (steps - 1) as nat)
    }
}

/// The index in `0..n` drawn by the step taken from `state`.
pub open spec fn splitmix_index(state: u64, n: usize) -> usize {
    (splitmix_output(state) % (n as u64)) as usize
}

/// The indices in `0..n` drawn by `count` successive steps from `state`.
pub open spec fn splitmix_indices(state: u64, count: nat, n: usize) -> Seq<usize>
    decreases count,
{
    if count == 0 {
        Seq::empty()
    } else {
        seq![splitmix_index(state, n)] + splitmix_indices(
            splitmix_next_state(state),
            (count - 1) as nat,
            n,
        )
    }
}

/// Draw `k` of a run of independent draws is the `k`-th output of the
/// generator reduced modulo `n`, and the run has one draw per step.
pub proof fn lemma_splitmix_indices_nth(state: u64, count: nat, n: usize)
    ensures
        splitmix_indices(state, count, n).len() == count,
        forall|k: int|
            0 <= k < count ==> #[trigger] splitmix_indices(state, count, n)[k] == splitmix_index(
                splitmix_advance(state, k as nat),
                n,
            ),
    decreases count,
{
    if count > 0 {
        let rest = splitmix_indices(splitmix_next_state(state), (count - 1) as nat, n);
        lemma_splitmix_indices_nth(splitmix_next_state(state), (count - 1) as nat, n);
        assert forall|k: int| 0 <= k < count implies #[trigger] splitmix_indices(
            state,
            count,
            n,
        )[k] == splitmix_index(splitmix_advance(state, k as nat), n) by {
            if k > 0 {
                assert(splitmix_indices(state, count, n)[k] == rest[k - 1]);
                assert(splitmix_advance(state, k as nat) == splitmix_advance(
                    splitmix_next_state(state),
                    (k - 1) as nat,
                ));
            }
        }
    }
}

/// SplitMix64: a small deterministic generator, so that every run with the
/// same seed draws the same samples.
pub struct SplitMix64 {
    state: u64,
}

impl View for SplitMix64 {
    type V = u64;

    /// The generator's state.
    closed spec fn view(&self) -> u64 {
        self.state
    }
}

impl SplitMix64 {
    /// A generator whose state is the seed.
    pub fn new(seed: u64) -> (r: Self)
        ensures
            r@ == seed,
    {
        SplitMix64 { state: seed }
    }

    /// The next 64-bit output.
    pub fn next_u64(&mut self) -> (r: u64)
        ensures
            r == splitmix_output(old(self)@),
            final(self)@ == splitmix_next_state(old(self)@),
    {
        self.state = self.state.wrapping_add(SPLITMIX_GAMMA);
        let mut z = self.state;
        z = (z ^ (z >> 30u64)).wrapping_mul(0xBF58_476D_1CE4_E5B9u64);
        z = (z ^ (z >> 27u64)).wrapping_mul(0x94D0_49BB_1331_11EBu64);
        z ^ (z >> 31u64)
    }

    /// An index in `0..n`: the next output reduced modulo `n`.
    pub fn gen_index(&mut self, n: usize) -> (r: usize)
        requires
            n > 0,
        ensures
            r < n,
            r == splitmix_index(old(self)@, n),
            final(self)@ == splitmix_next_state(old(self)@),
    {
        let x = self.next_u64();
        (x % (n as u64)) as usize
    }
}

} // verus!
