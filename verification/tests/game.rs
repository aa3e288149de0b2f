use azul::move_detection::{describe_move, MoveError, MoveOrigin};
use azul::rng::RandomSource;
use azul::state::State;
use azul::tile::{Tile, TileSet};

#[test]
fn new_game_holds_a_hundred_tiles() {
    let s = State::new(2);
    assert_eq!(s.tile_count(), 100);
    assert!(s.self_check());
    assert_eq!(s.bag.count(Tile::Black), 20);
    assert_eq!(s.bag.count(Tile::White), 20);
    assert_eq!(s.bag.count(Tile::Azul), 20);
    assert_eq!(s.bag.count(Tile::Yellow), 20);
    assert_eq!(s.bag.count(Tile::Red), 20);
    assert_eq!(s.players.len(), 2);
    assert_eq!(s.moves, 0);
}

#[test]
fn deal_fills_five_factories_of_four() {
    let mut s = State::new(2);
    let mut rng = RandomSource::from_seed(3);
    s.deal(&mut rng);
    assert_eq!(s.factories.len(), 5);
    for f in &s.factories {
        assert_eq!(f.len(), 4);
    }
    assert_eq!(s.bag.len(), 80);
    assert_eq!(s.tile_count(), 100);
    assert!(!s.is_empty());
}

#[test]
fn deal_refills_bag_from_tray() {
    let mut s = State::new(2);
    // move most of the bag to the tray so the deal must refill
    let n = s.bag.drain(Tile::Black);
    s.tray.add_tiles(Tile::Black, n);
    let n = s.bag.drain(Tile::White);
    s.tray.add_tiles(Tile::White, n);
    let n = s.bag.drain(Tile::Azul);
    s.tray.add_tiles(Tile::Azul, n);
    let n = s.bag.drain(Tile::Yellow);
    s.tray.add_tiles(Tile::Yellow, n);
    let n = s.bag.drain(Tile::Red);
    s.tray.add_tiles(Tile::Red, n);
    assert_eq!(s.bag.len(), 0);
    let mut rng = RandomSource::from_seed(9);
    s.deal(&mut rng);
    assert_eq!(s.factories.len(), 5);
    for f in &s.factories {
        assert_eq!(f.len(), 4);
    }
    assert_eq!(s.tray.len(), 0);
    assert_eq!(s.tile_count(), 100);
}

#[test]
fn children_conserve_tiles_and_advance_moves() {
    let mut s = State::new(2);
    let mut rng = RandomSource::from_seed(17);
    s.deal(&mut rng);
    let kids = s.children(&mut rng);
    assert!(kids.len() >= 1);
    for child in &kids {
        assert_eq!(child.tile_count(), 100);
        assert_eq!(child.moves, 1);
        assert_eq!(child.players.len(), 2);
        assert!(child.self_check());
    }
}

#[test]
fn round_end_redeals_and_commits() {
    // Once factories and center are simultaneously empty, round-end
    // processing commits full rows to the walls and deals five fresh
    // four-tile factories.
    let mut s = State::new(2);
    // stage a full row for player 0, taking its tiles out of the bag
    let taken = s.bag.drain(Tile::Azul);
    assert_eq!(taken, 20);
    s.bag.add_tiles(Tile::Azul, taken - 1);
    let mut p0 = s.players[0];
    assert!(p0.maybe_place(Tile::Azul, 1, 0));
    s.players[0] = p0;
    assert_eq!(s.tile_count(), 100);
    assert!(s.is_empty());
    let mut rng = RandomSource::from_seed(23);
    s.prepare_next_round(&mut rng);
    // the full row was committed to the wall
    assert_eq!(s.players[0].rows[0], None);
    assert!(s.players[0].wall.has_tile(0, Tile::Azul));
    assert_eq!(s.players[0].points, 1);
    // a fresh set of factories was dealt
    assert_eq!(s.factories.len(), 5);
    for f in &s.factories {
        assert_eq!(f.len(), 4);
    }
    assert_eq!(s.moves, 1);
    assert_eq!(s.tile_count(), 100);
}

#[test]
fn game_over_and_winner_score() {
    let mut s = State::new(2);
    assert!(!s.is_game_over());
    assert_eq!(s.winner(), None);
    let mut p0 = s.players[0];
    for c in 0..5 {
        // fill row 2 of the wall, taking the tiles out of the bag
        let color = azul::wall::wall_color(2, c);
        let n = s.bag.drain(color);
        s.bag.add_tiles(color, n - 1);
        p0.wall.add_tile(2, color);
    }
    s.players[0] = p0;
    let mut p1 = s.players[1];
    p1.points = 7;
    s.players[1] = p1;
    assert!(s.is_game_over());
    // the winner is reported as the maximum score among the players
    assert_eq!(s.winner(), Some(7));
    assert_eq!(s.tile_count(), 100);
}

#[test]
fn describe_move_reads_a_center_draft() {
    let mut s = State::new(2);
    // two azul and two red tiles in the center, no factories
    let n = s.bag.drain(Tile::Azul);
    s.bag.add_tiles(Tile::Azul, n - 2);
    s.center.add_tiles(Tile::Azul, 2);
    let n = s.bag.drain(Tile::Red);
    s.bag.add_tiles(Tile::Red, n - 2);
    s.center.add_tiles(Tile::Red, 2);
    assert_eq!(s.tile_count(), 100);
    let mut rng = RandomSource::from_seed(31);
    let kids = s.children(&mut rng);
    // two colors, each placeable on all five rows
    assert_eq!(kids.len(), 10);
    for child in &kids {
        let d = describe_move(&s, child).expect("every successor reads as one move");
        assert_eq!(d.player_index, 0);
        assert_eq!(d.count, 2);
        assert_eq!(d.placed + d.discarded, 2);
        assert_eq!(d.origin, MoveOrigin::Center);
    }
}

#[test]
fn describe_move_rejects_stochastic_phase() {
    let s = State::new(2);
    let t = State::new(2);
    assert_eq!(describe_move(&s, &t), Err(MoveError::StochasticPhase));
}

#[test]
fn describe_move_rejects_illegal_transition() {
    // the move counter must advance by exactly one
    let mut s = State::new(2);
    s.center.add_tiles(Tile::Red, 2);
    let t = s.clone();
    assert_eq!(describe_move(&s, &t), Err(MoveError::IllegalTransition));
}

#[test]
fn describe_move_rejects_ambiguous_transition() {
    // two colors leave the center at once: no single draft explains it
    let mut s = State::new(2);
    s.center.add_tiles(Tile::Red, 2);
    s.center.add_tiles(Tile::Azul, 2);
    let mut t = s.clone();
    t.moves = 1;
    t.center.drain(Tile::Red);
    t.center.drain(Tile::Azul);
    assert_eq!(describe_move(&s, &t), Err(MoveError::AmbiguousTransition));
}

#[test]
fn children_enumerate_every_draft_branch() {
    // one factory with two colors, one color in the center, and row 0 of
    // the wall blocking azul for the current player
    let mut s = State::new(2);
    let mut factory = TileSet::new();
    factory.add_tiles(Tile::Azul, 3);
    factory.add_tiles(Tile::Red, 1);
    let n = s.bag.drain(Tile::Azul);
    s.bag.add_tiles(Tile::Azul, n - 3);
    let n = s.bag.drain(Tile::Red);
    s.bag.add_tiles(Tile::Red, n - 1);
    s.factories.push(factory);
    let n = s.bag.drain(Tile::White);
    s.bag.add_tiles(Tile::White, n - 2);
    s.center.add_tiles(Tile::White, 2);
    let mut p0 = s.players[0];
    let n = s.bag.drain(Tile::Azul);
    s.bag.add_tiles(Tile::Azul, n - 1);
    p0.wall.add_tile(0, Tile::Azul);
    s.players[0] = p0;
    assert_eq!(s.tile_count(), 100);
    let mut rng = RandomSource::from_seed(41);
    let kids = s.children(&mut rng);
    // azul fits rows 1..4 (row 0 blocked by the wall): 4 branches;
    // red fits all five rows; white from the center fits all five rows
    assert_eq!(kids.len(), 4 + 5 + 5);
    for child in &kids {
        assert_eq!(child.tile_count(), 100);
    }
}

#[test]
fn round_ending_draft_redeals_inside_children() {
    // a single azul in the center: every draft of it ends the round, so
    // each successor has been through scoring and a fresh deal
    let mut s = State::new(2);
    let n = s.bag.drain(Tile::Azul);
    s.bag.add_tiles(Tile::Azul, n - 1);
    s.center.add_tiles(Tile::Azul, 1);
    assert_eq!(s.tile_count(), 100);
    let mut rng = RandomSource::from_seed(77);
    let kids = s.children(&mut rng);
    // the single azul fits any of the five rows
    assert_eq!(kids.len(), 5);
    let mut committed = 0;
    for child in &kids {
        assert_eq!(child.moves, 1);
        assert_eq!(child.tile_count(), 100);
        assert_eq!(child.factories.len(), 5);
        for f in &child.factories {
            assert_eq!(f.len(), 4);
        }
        assert_eq!(child.center.len(), 0);
        if child.players[0].wall.has_tile(0, Tile::Azul) {
            // the row-0 draft filled its single slot and was committed
            assert_eq!(child.players[0].rows[0], None);
            assert_eq!(child.players[0].points, 1);
            committed += 1;
        }
    }
    assert_eq!(committed, 1);
}
