//! Decisions of the per-pixel path integrator: how an invocation's generator
//! is seeded, which accumulator texel it writes, and the bounce loop as a
//! state machine from the outcome of each trace to the next state. The
//! floating-point shading around these decisions is done by the caller.
use vstd::prelude::*;

verus! {

/// Most trace-and-scatter rounds one path may take.
pub const MAX_BOUNCES: u32 = 50;

/// Per-frame values handed to every invocation.
#[derive(Clone, Copy, Debug, PartialEq, Eq)]
pub struct PushConstants {
    seed: u32,
}

impl PushConstants {
    pub closed spec fn spec_seed(&self) -> u32 {
        self.seed
    }

    pub fn new(seed: u32) -> (r: Self)
        ensures
            r.spec_seed() == seed,
    {
        PushConstants { seed }
    }

    /// The per-frame nonce mixed into every pixel's generator seed.
    pub fn seed(&self) -> (r: u32)
        ensures
            r == self.spec_seed(),
    {
        self.seed
    }
}

/// Row-major index of pixel `(x, y)` in a grid `width` pixels wide, modulo 2^32.
pub open spec fn pixel_index(x: u32, y: u32, width: u32) -> u32 {
    ((y as nat * width as nat + x as nat) % 0x1_0000_0000) as u32
}

/// Seed of the generator of the invocation at pixel `(x, y)`: its pixel index
/// xor the frame's nonce.
pub fn pixel_seed(x: u32, y: u32, width: u32, constants: &PushConstants) -> (r: u32)
    ensures
        r == pixel_index(x, y, width) ^ constants.spec_seed(),
{
    let scaled = y.wrapping_mul(width);
    let index = scaled.wrapping_add(x);
    proof {
        let m: int = 0x1_0000_0000;
        let prod: int = y as int * width as int;
        let sum: int = scaled as int + x as int;
        vstd::arithmetic::div_mod::lemma_add_mod_noop(prod, x as int, m);
        vstd::arithmetic::div_mod::lemma_small_mod(x as nat, m as nat);
        if sum < m {
            vstd::arithmetic::div_mod::lemma_small_mod(sum as nat, m as nat);
        } else {
            vstd::arithmetic::div_mod::lemma_add_mod_noop(sum - m, m, m);
            vstd::arithmetic::div_mod::lemma_mod_self_0(m);
            vstd::arithmetic::div_mod::lemma_small_mod((sum - m) as nat, m as nat);
        }
    }
    index ^ constants.seed
}

/// Texel of the accumulator image written by the invocation at pixel
/// `(x, y)`: rows are flipped so that `y` grows upward in the image.
pub fn accumulator_texel(x: u32, y: u32, height: u32) -> (r: (u32, u32))
    requires
        y < height,
    ensures
        r.0 == x,
        r.1 == height - 1 - y,
{
    (x, height - 1 - y)
}

/// What one round of the bounce loop observed: the ray left the scene, the
/// surface it hit scattered it on, or the surface absorbed it.
#[derive(Clone, Copy, Debug, PartialEq, Eq)]
pub enum TraceOutcome {
    Miss,
    Scattered,
    Absorbed,
}

/// State of one pixel's path. `Active` counts the rounds taken so far; the
/// other three are terminal.
#[derive(Clone, Copy, Debug, PartialEq, Eq)]
pub enum PathState {
    Active { bounces: u32 },
    Miss,
    Absorbed,
    BounceLimitReached,
}

impl PathState {
    /// An active path has taken fewer rounds than the cap.
    pub open spec fn wf(self) -> bool {
        match self {
            PathState::Active { bounces } => bounces < MAX_BOUNCES,
            _ => true,
        }
    }

    pub open spec fn spec_is_active(self) -> bool {
        self is Active
    }

    /// A path that has not traced yet.
    pub fn start() -> (r: Self)
        ensures
            r == (PathState::Active { bounces: 0 }),
    {
        PathState::Active { bounces: 0 }
    }

    /// Whether the loop must trace again.
    pub fn is_active(&self) -> (r: bool)
        ensures
            r == self.spec_is_active(),
    {
        match self {
            PathState::Active { .. } => true,
            _ => false,
        }
    }
}

/// The state that follows `state` once a round has had `outcome`. A miss and
/// an absorption end the path; a scatter continues it until the round cap is
/// reached. A terminal state does not change.
pub open spec fn next_path_state(state: PathState, outcome: TraceOutcome) -> PathState {
    match state {
        PathState::Active { bounces } => match outcome {
            TraceOutcome::Miss => PathState::Miss,
            TraceOutcome::Absorbed => PathState::Absorbed,
            TraceOutcome::Scattered => if bounces + 1 >= MAX_BOUNCES {
                PathState::BounceLimitReached
            } else {
                PathState::Active { bounces: (bounces + 1) as u32 }
            },
        },
        _ => state,
    }
}

/// Advances the bounce loop by one round.
pub fn path_step(state: PathState, outcome: TraceOutcome) -> (r: PathState)
    ensures
        r == next_path_state(state, outcome),
        r.wf(),
{
    match state {
        PathState::Active { bounces } => match outcome {
            TraceOutcome::Miss => PathState::Miss,
            TraceOutcome::Absorbed => PathState::Absorbed,
            TraceOutcome::Scattered => {
                if bounces >= MAX_BOUNCES - 1 {
                    PathState::BounceLimitReached
                } else {
                    PathState::Active { bounces: bounces + 1 }
                }
            },
        },
        _ => state,
    }
}

/// The state reached from `state` when the rounds have the outcomes `outcomes`
/// in order, stopping at the first terminal state.
pub open spec fn run_path(state: PathState, outcomes: Seq<TraceOutcome>) -> PathState
    decreases outcomes.len(),
{
    if outcomes.len() == 0 || !state.spec_is_active() {
        state
    } else {
        run_path(next_path_state(state, outcomes[0]), outcomes.drop_first())
    }
}

/// Number of rounds traced from `state` on the outcomes `outcomes`.
pub open spec fn rounds_taken(state: PathState, outcomes: Seq<TraceOutcome>) -> nat
    decreases outcomes.len(),
{
    if outcomes.len() == 0 || !state.spec_is_active() {
        0
    } else {
        1 + rounds_taken(next_path_state(state, outcomes[0]), outcomes.drop_first())
    }
}

proof fn lemma_rounds_from(state: PathState, outcomes: Seq<TraceOutcome>)
    requires
        state.wf(),
    ensures
        state matches PathState::Active { bounces } ==> rounds_taken(state, outcomes) <= MAX_BOUNCES - bounces,
        (state matches PathState::Active { bounces } && outcomes.len() >= MAX_BOUNCES - bounces)
            ==> !run_path(state, outcomes).spec_is_active(),
    decreases outcomes.len(),
{
    if outcomes.len() > 0 && state.spec_is_active() {
        let next = next_path_state(state, outcomes[0]);
        let rest = outcomes.drop_first();
        lemma_rounds_from(next, rest);
        if !next.spec_is_active() {
            assert(rounds_taken(next, rest) == 0);
            assert(run_path(next, rest) == next);
        }
    }
}

/// Whatever each round observes, a path traces at most `MAX_BOUNCES` rounds,
/// and after that many outcomes it has reached a terminal state.
pub proof fn lemma_path_terminates(outcomes: Seq<TraceOutcome>)
    ensures
        rounds_taken(PathState::Active { bounces: 0 }, outcomes) <= MAX_BOUNCES,
        outcomes.len() >= MAX_BOUNCES ==> !run_path(PathState::Active { bounces: 0 }, outcomes).spec_is_active(),
{
    lemma_rounds_from(PathState::Active { bounces: 0 }, outcomes);
}

proof fn lemma_scatters_from(bounces: u32, outcomes: Seq<TraceOutcome>)
    requires
        bounces < MAX_BOUNCES,
        outcomes.len() >= MAX_BOUNCES - bounces,
        forall|i: int| 0 <= i < MAX_BOUNCES - bounces ==> outcomes[i] == TraceOutcome::Scattered,
    ensures
        rounds_taken(PathState::Active { bounces }, outcomes) == MAX_BOUNCES - bounces,
        run_path(PathState::Active { bounces }, outcomes) == PathState::BounceLimitReached,
    decreases MAX_BOUNCES - bounces,
{
    let rest = outcomes.drop_first();
    let state = PathState::Active { bounces };
    assert(outcomes[0] == TraceOutcome::Scattered);
    let next = next_path_state(state, outcomes[0]);
    if bounces + 1 >= MAX_BOUNCES {
        assert(next == PathState::BounceLimitReached);
        assert(rounds_taken(next, rest) == 0);
        assert(run_path(next, rest) == next);
    } else {
        assert forall|i: int| 0 <= i < MAX_BOUNCES - (bounces + 1) implies rest[i] == TraceOutcome::Scattered by {
            assert(rest[i] == outcomes[i + 1]);
        }
        lemma_scatters_from((bounces + 1) as u32, rest);
    }
}

/// When every surface met scatters the ray, the path takes exactly
/// `MAX_BOUNCES` rounds and ends at the bounce limit, whatever would follow.
pub proof fn lemma_scattering_path_hits_cap(outcomes: Seq<TraceOutcome>)
    requires
        outcomes.len() >= MAX_BOUNCES,
        forall|i: int| 0 <= i < MAX_BOUNCES ==> outcomes[i] == TraceOutcome::Scattered,
    ensures
        rounds_taken(PathState::Active { bounces: 0 }, outcomes) == MAX_BOUNCES,
        run_path(PathState::Active { bounces: 0 }, outcomes) == PathState::BounceLimitReached,
{
    lemma_scatters_from(0, outcomes);
}

} // verus!
