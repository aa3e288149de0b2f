use azul::minmax::{minmax, random_move, search, weighted_mean, DeterministicGameState, Evaluation, GameState};
use azul::rng::RandomSource;
use azul::state::{Fish, State};
use azul::tile::Tile;

#[test]
fn minmax_at_depth_zero_evaluates() {
    let mut s = State::new(2);
    let mut p0 = s.players[0];
    p0.points = 13;
    s.players[0] = p0;
    let mut fish = Fish::new();
    let mut rng = RandomSource::from_seed(1);
    // player 0 is to move, so the leaf value is player 0's points
    let (index, value) = minmax(
        GameState::<State, State>::Deterministic(s),
        &mut fish,
        &mut rng,
        0,
        0,
        i32::MIN,
        i32::MAX,
    );
    assert_eq!(index, None);
    assert_eq!(value, 13);
}

#[test]
fn minmax_reports_win_and_loss_sentinels() {
    let mut s = State::new(2);
    let mut p1 = s.players[1];
    for c in 0..5 {
        let color = azul::wall::wall_color(4, c);
        let n = s.bag.drain(color);
        s.bag.add_tiles(color, n - 1);
        p1.wall.add_tile(4, color);
    }
    p1.points = 30;
    s.players[1] = p1;
    assert!(s.is_game_over());
    let mut fish = Fish::new();
    let mut rng = RandomSource::from_seed(2);
    let (_, value) = minmax(
        GameState::<State, State>::Deterministic(s.duplicate()),
        &mut fish,
        &mut rng,
        30,
        3,
        i32::MIN,
        i32::MAX,
    );
    // winner() reports the maximum score, 30, which equals "player" 30 here
    assert_eq!(value, i32::MAX);
    let (_, value) = minmax(
        GameState::<State, State>::Deterministic(s),
        &mut fish,
        &mut rng,
        0,
        3,
        i32::MIN,
        i32::MAX,
    );
    assert_eq!(value, i32::MIN);
}

#[test]
fn search_finds_a_move() {
    let mut rng = RandomSource::from_seed(77);
    let mut s = State::new(2);
    s.deal(&mut rng);
    let mut fish = Fish::new();
    let next = search(&s, &mut fish, 2, &mut rng).expect("a dealt state has moves");
    assert_eq!(next.moves, 1);
    assert_eq!(next.tile_count(), 100);
}

#[test]
fn search_is_deterministic_under_a_fixed_seed() {
    // identically seeded sources from identical states choose identical
    // successors
    let run = || {
        let mut rng = RandomSource::from_seed(2024);
        let mut s = State::new(2);
        s.deal(&mut rng);
        let mut fish = Fish::new();
        search(&s, &mut fish, 2, &mut rng).expect("a dealt state has moves")
    };
    let a = run();
    let b = run();
    assert_eq!(a, b);
}

#[test]
fn random_move_is_deterministic_under_a_fixed_seed() {
    let run = || {
        let mut rng = RandomSource::from_seed(555);
        let mut s = State::new(2);
        s.deal(&mut rng);
        random_move(&s, &mut rng)
    };
    assert_eq!(run(), run());
}

#[test]
fn sampled_outcome_resolves_to_itself() {
    let mut rng = RandomSource::from_seed(8);
    let mut s = State::new(2);
    s.deal(&mut rng);
    let outcomes = <State as DeterministicGameState>::sample_outcomes(&s, &mut rng, 4);
    assert_eq!(outcomes.len(), 1);
    assert_eq!(outcomes[0].0, 1);
    match &outcomes[0].1 {
        GameState::Deterministic(d) => assert_eq!(*d, s),
        GameState::Stochastic(_) => panic!("a state resolves to itself"),
    }
}

#[test]
fn full_game_to_the_end() {
    // A 2-player game: depth-1 search for player 0, random play for player
    // 1, until a winner is defined; conservation holds at every step.
    let mut rng = RandomSource::from_seed(90125);
    let mut fish = Fish::new();
    let mut state = State::new(2);
    state.deal(&mut rng);
    let mut steps: usize = 0;
    while state.winner().is_none() {
        assert_eq!(state.tile_count(), 100);
        let next = if state.current_player() == 0 {
            search(&state, &mut fish, 1, &mut rng).expect("a live game has moves")
        } else {
            random_move(&state, &mut rng)
        };
        state = next;
        steps += 1;
        assert!(steps < 100_000, "the game should end");
    }
    assert_eq!(state.tile_count(), 100);
    let winning_score = state.winner().unwrap();
    let best = state.players.iter().map(|p| p.points).max().unwrap();
    assert_eq!(winning_score, best);
    for p in &state.players {
        assert!(p.points <= winning_score);
    }
}

#[test]
fn evaluation_scores_by_points() {
    let mut s = State::new(3);
    let mut p2 = s.players[2];
    p2.points = 42;
    s.players[2] = p2;
    let fish = Fish::new();
    assert_eq!(fish.evaulate(&s, 2), 42);
    assert_eq!(fish.evaulate(&s, 0), 0);
    let other = State::new(1);
    assert_eq!(other.evaulate(&s, 2), 42);
}

#[test]
fn fish_records_updates() {
    let mut fish = Fish::new();
    let s = State::new(2);
    assert_eq!(fish.cache.len(), 0);
    fish.update(&s, 5);
    fish.update(&s, 6);
    assert_eq!(fish.cache.len(), 2);
    assert_eq!(fish.cache[1].1, 6);
}

#[test]
fn minmax_without_successors_returns_loss_or_win_sentinel() {
    // an undecided state with nothing pending has no successors: a
    // maximizing node values it as a loss, a minimizing node as a win
    let s = State::new(2);
    let mut fish = Fish::new();
    let mut rng = RandomSource::from_seed(4);
    let (index, value) = minmax(
        GameState::<State, State>::Deterministic(s.duplicate()),
        &mut fish,
        &mut rng,
        0,
        2,
        i32::MIN,
        i32::MAX,
    );
    assert_eq!(index, None);
    assert_eq!(value, i32::MIN);
    let (index, value) = minmax(
        GameState::<State, State>::Deterministic(s.duplicate()),
        &mut fish,
        &mut rng,
        1,
        2,
        i32::MIN,
        i32::MAX,
    );
    assert_eq!(index, None);
    assert_eq!(value, i32::MAX);
    // and search finds nothing to play
    assert_eq!(search(&s, &mut fish, 3, &mut rng), None);
}

#[test]
fn weighted_mean_rounds_and_weights() {
    // plain mean
    assert_eq!(weighted_mean(&vec![(1, 2), (1, 4)]), 3);
    // weights count: (3 * 10 + 1 * 2) / 4 = 8
    assert_eq!(weighted_mean(&vec![(3, 10), (1, 2)]), 8);
    // halves round away from zero, in both signs
    assert_eq!(weighted_mean(&vec![(1, 3), (1, 4)]), 4);
    assert_eq!(weighted_mean(&vec![(1, -3), (1, -4)]), -4);
    // a single sample is returned as it is
    assert_eq!(weighted_mean(&vec![(7, -123)]), -123);
    // the mean never leaves the sampled range
    let m = weighted_mean(&vec![(2, i32::MIN), (1, i32::MAX)]);
    assert!(i32::MIN <= m && m <= i32::MAX);
    assert!(m <= 0);
}
