use pathtrace::integrator::{
    accumulator_texel, path_step, pixel_seed, PathState, PushConstants, TraceOutcome, MAX_BOUNCES,
};

fn rounds_until_terminal(outcomes: &[TraceOutcome]) -> (PathState, usize) {
    let mut state = PathState::start();
    let mut rounds = 0;
    let mut next = outcomes.iter();
    while state.is_active() {
        let outcome = *next.next().expect("ran out of outcomes");
        state = path_step(state, outcome);
        rounds += 1;
    }
    (state, rounds)
}

#[test]
fn always_scattering_path_stops_at_exactly_the_cap() {
    let outcomes = vec![TraceOutcome::Scattered; 80];
    let (state, rounds) = rounds_until_terminal(&outcomes);
    assert_eq!(rounds, 50);
    assert_eq!(rounds, MAX_BOUNCES as usize);
    assert_eq!(state, PathState::BounceLimitReached);
}

#[test]
fn miss_ends_the_path() {
    let (state, rounds) = rounds_until_terminal(&[
        TraceOutcome::Scattered,
        TraceOutcome::Scattered,
        TraceOutcome::Miss,
        TraceOutcome::Scattered,
    ]);
    assert_eq!(state, PathState::Miss);
    assert_eq!(rounds, 3);
}

#[test]
fn absorption_ends_the_path() {
    let (state, rounds) = rounds_until_terminal(&[TraceOutcome::Absorbed]);
    assert_eq!(state, PathState::Absorbed);
    assert_eq!(rounds, 1);
}

#[test]
fn scatter_counts_bounces() {
    let s = PathState::start();
    assert_eq!(s, PathState::Active { bounces: 0 });
    let s = path_step(s, TraceOutcome::Scattered);
    assert_eq!(s, PathState::Active { bounces: 1 });
    assert_eq!(
        path_step(PathState::Active { bounces: 48 }, TraceOutcome::Scattered),
        PathState::Active { bounces: 49 }
    );
    assert_eq!(
        path_step(PathState::Active { bounces: 49 }, TraceOutcome::Scattered),
        PathState::BounceLimitReached
    );
}

#[test]
fn terminal_states_do_not_change() {
    for s in [PathState::Miss, PathState::Absorbed, PathState::BounceLimitReached] {
        assert!(!s.is_active());
        assert_eq!(path_step(s, TraceOutcome::Scattered), s);
        assert_eq!(path_step(s, TraceOutcome::Miss), s);
    }
}

#[test]
fn pixel_seed_mixes_index_and_nonce() {
    let constants = PushConstants::new(0xdead_beef);
    assert_eq!(constants.seed(), 0xdead_beef);
    assert_eq!(pixel_seed(3, 2, 640, &constants), 3735927788);
    assert_eq!(pixel_seed(0, 0, 640, &PushConstants::new(0)), 0);
    assert_eq!(pixel_seed(7, 1, 10, &PushConstants::new(0)), 17);
}

#[test]
fn pixel_seed_wraps_on_overflow() {
    assert_eq!(pixel_seed(5, 0x10000, 0x10000, &PushConstants::new(7)), 2);
}

#[test]
fn accumulator_rows_are_flipped() {
    assert_eq!(accumulator_texel(4, 0, 10), (4, 9));
    assert_eq!(accumulator_texel(4, 9, 10), (4, 0));
    assert_eq!(accumulator_texel(0, 0, 1), (0, 0));
}

#[test]
fn out_of_range_bounce_count_stops_at_the_limit() {
    assert_eq!(
        path_step(PathState::Active { bounces: 70 }, TraceOutcome::Scattered),
        PathState::BounceLimitReached
    );
    assert_eq!(
        path_step(PathState::Active { bounces: u32::MAX }, TraceOutcome::Scattered),
        PathState::BounceLimitReached
    );
    assert_eq!(
        path_step(PathState::Active { bounces: u32::MAX }, TraceOutcome::Miss),
        PathState::Miss
    );
}
