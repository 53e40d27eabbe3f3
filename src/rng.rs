//! Per-invocation pseudo-random bit generator: a 64-bit linear congruential
//! state permuted by an xorshift-multiply-xorshift output function.
use vstd::prelude::*;

verus! {

/// Multiplier of the linear congruential state update.
pub const PCG_MULTIPLIER: u64 = 6364136223846793005;

/// Increment of the linear congruential state update.
pub const PCG_INCREMENT: u64 = 1442695040888963407;

/// Multiplier of the output permutation.
pub const PCG_OUTPUT_MULTIPLIER: u64 = 12605985483714917081;

/// The state that follows `s`: `s * multiplier + increment` modulo 2^64.
#[verifier::opaque]
pub open spec fn pcg_next_state(s: u64) -> u64 {
    ((s as nat * PCG_MULTIPLIER as nat + PCG_INCREMENT as nat) % 0x1_0000_0000_0000_0000) as u64
}

/// The output word produced from state `s`.
#[verifier::opaque]
pub open spec fn pcg_output(s: u64) -> u64 {
    let shift = (s >> 59u64) + 5;
    let mixed = (s >> shift) ^ s;
    let word = ((mixed as nat * PCG_OUTPUT_MULTIPLIER as nat) % 0x1_0000_0000_0000_0000) as u64;
    (word >> 43u64) ^ word
}

/// The state after `n` draws starting from state `s`.
pub open spec fn pcg_state_after(s: u64, n: nat) -> u64
    decreases n,
{
    if n == 0 {
        s
    } else {
        pcg_next_state(pcg_state_after(s, (n - 1) as nat))
    }
}

/// The first `n` outputs of a generator whose state is `s`.
pub open spec fn pcg_sequence(s: u64, n: nat) -> Seq<u64>
    decreases n,
{
    if n == 0 {
        Seq::empty()
    } else {
        pcg_sequence(s, (n - 1) as nat).push(pcg_output(pcg_state_after(s, (n - 1) as nat)))
    }
}

proof fn lemma_state_after_shift(s: u64, n: nat)
    ensures
        pcg_state_after(s, n + 1) == pcg_state_after(pcg_next_state(s), n),
    decreases n,
{
    assert(pcg_state_after(s, n + 1) == pcg_next_state(pcg_state_after(s, n)));
    if n > 0 {
        lemma_state_after_shift(s, (n - 1) as nat);
        assert(pcg_state_after(pcg_next_state(s), n) == pcg_next_state(
            pcg_state_after(pcg_next_state(s), (n - 1) as nat),
        ));
    } else {
        assert(pcg_state_after(s, 0) == s);
        assert(pcg_state_after(pcg_next_state(s), 0) == pcg_next_state(s));
    }
}

/// A generator's output sequence is determined by its state: one draw from
/// state `s` followed by `n` draws from the state it leaves gives exactly the
/// first `n + 1` outputs of `s`. So generators seeded alike agree on every
/// draw, however many are taken.
pub proof fn lemma_sequence_unfolds(s: u64, n: nat)
    ensures
        pcg_sequence(s, n + 1) == seq![pcg_output(s)] + pcg_sequence(pcg_next_state(s), n),
    decreases n,
{
    if n == 0 {
        assert(pcg_state_after(s, 0) == s);
        assert(pcg_sequence(s, 0) == Seq::<u64>::empty());
        assert(pcg_sequence(pcg_next_state(s), 0) == Seq::<u64>::empty());
        assert(pcg_sequence(s, 1) == pcg_sequence(s, 0).push(pcg_output(pcg_state_after(s, 0))));
        assert(pcg_sequence(s, 1) =~= seq![pcg_output(s)] + pcg_sequence(pcg_next_state(s), 0));
    } else {
        lemma_sequence_unfolds(s, (n - 1) as nat);
        lemma_state_after_shift(s, (n - 1) as nat);
        assert(pcg_sequence(s, n + 1) == pcg_sequence(s, n).push(pcg_output(pcg_state_after(s, n))));
        assert(pcg_sequence(pcg_next_state(s), n) == pcg_sequence(pcg_next_state(s), (n - 1) as nat).push(
            pcg_output(pcg_state_after(pcg_next_state(s), (n - 1) as nat)),
        ));
        assert(pcg_sequence(s, n + 1) =~= seq![pcg_output(s)] + pcg_sequence(pcg_next_state(s), n));
    }
}

/// Two generators in the same state produce the same first `n` outputs.
pub proof fn lemma_same_seed_same_sequence(a: Pcg64Si, b: Pcg64Si, n: nat)
    requires
        a.spec_state() == b.spec_state(),
    ensures
        pcg_sequence(a.spec_state(), n) == pcg_sequence(b.spec_state(), n),
{
}

/// Generator state: a single 64-bit word.
#[derive(Clone, Copy, Debug, PartialEq, Eq)]
pub struct Pcg64Si {
    state: u64,
}

impl Pcg64Si {
    pub closed spec fn spec_state(&self) -> u64 {
        self.state
    }

    /// A generator whose state is exactly `seed`.
    pub fn new(seed: u64) -> (r: Self)
        ensures
            r.spec_state() == seed,
    {
        Pcg64Si { state: seed }
    }

    /// Current state word.
    pub fn state(&self) -> (r: u64)
        ensures
            r == self.spec_state(),
    {
        self.state
    }

    /// Draws the next 64-bit output and advances the state.
    pub fn next_u64(&mut self) -> (r: u64)
        ensures
            r == pcg_output(old(self).spec_state()),
            final(self).spec_state() == pcg_next_state(old(self).spec_state()),
    {
        proof {
            reveal(pcg_next_state);
            reveal(pcg_output);
        }
        let old_state = self.state;
        let scaled = self.state.wrapping_mul(PCG_MULTIPLIER);
        self.state = scaled.wrapping_add(PCG_INCREMENT);
        proof {
            let m: int = 0x1_0000_0000_0000_0000;
            let prod: int = old_state as int * PCG_MULTIPLIER as int;
            let sum: int = scaled as int + PCG_INCREMENT as int;
            vstd::arithmetic::div_mod::lemma_add_mod_noop(prod, PCG_INCREMENT as int, m);
            vstd::arithmetic::div_mod::lemma_small_mod(PCG_INCREMENT as nat, m as nat);
            if sum < m {
                vstd::arithmetic::div_mod::lemma_small_mod(sum as nat, m as nat);
            } else {
                vstd::arithmetic::div_mod::lemma_add_mod_noop(sum - m, m, m);
                vstd::arithmetic::div_mod::lemma_mod_self_0(m);
                vstd::arithmetic::div_mod::lemma_small_mod((sum - m) as nat, m as nat);
            }
        }
        let high = old_state >> 59u64;
        assert(high <= 31) by (bit_vector)
            requires
                high == old_state >> 59u64,
        ;
        let word = ((old_state >> (high + 5)) ^ old_state).wrapping_mul(PCG_OUTPUT_MULTIPLIER);
        (word >> 43u64) ^ word
    }

    /// Draws the 24 high bits of the next output: the numerator, over 2^24,
    /// of a uniform fraction in [0, 1) that an `f32` holds exactly.
    pub fn next_fraction_bits(&mut self) -> (r: u32)
        ensures
            r == pcg_output(old(self).spec_state()) >> 40u64,
            r < 0x100_0000,
            final(self).spec_state() == pcg_next_state(old(self).spec_state()),
    {
        let x = self.next_u64();
        let bits = x >> 40u64;
        assert(bits < 0x100_0000) by (bit_vector)
            requires
                bits == x >> 40u64,
        ;
        bits as u32
    }
}

} // verus!
