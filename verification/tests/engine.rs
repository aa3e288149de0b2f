use azul::player::{discard_points, Player};
use azul::rng::RandomSource;
use azul::tile::{Tile, TileSet};
use azul::wall::{wall_color, wall_column, Wall};

#[test]
fn tileset_push_drain_len() {
    let mut ts = TileSet::new();
    assert_eq!(ts.len(), 0);
    ts.push(Tile::Azul);
    ts.push(Tile::Azul);
    ts.push(Tile::Red);
    assert_eq!(ts.len(), 3);
    assert_eq!(ts.count(Tile::Azul), 2);
    assert_eq!(ts.drain(Tile::Azul), 2);
    assert_eq!(ts.count(Tile::Azul), 0);
    assert_eq!(ts.len(), 1);
}

#[test]
fn tileset_extend_merges_counts() {
    let mut a = TileSet::new();
    a.add_tiles(Tile::Black, 3);
    let mut b = TileSet::new();
    b.add_tiles(Tile::Black, 2);
    b.add_tiles(Tile::White, 4);
    a.extend(b);
    assert_eq!(a.count(Tile::Black), 5);
    assert_eq!(a.count(Tile::White), 4);
    assert_eq!(a.len(), 9);
}

#[test]
fn tileset_draw_conserves_tiles() {
    let mut bag = TileSet::new();
    bag.add_tiles(Tile::Yellow, 3);
    bag.add_tiles(Tile::Red, 1);
    let mut rng = RandomSource::from_seed(11);
    let drawn = bag.draw(&mut rng, 4);
    assert_eq!(drawn.len(), 4);
    assert_eq!(bag.len(), 0);
    assert_eq!(drawn.count(Tile::Yellow), 3);
    assert_eq!(drawn.count(Tile::Red), 1);
}

#[test]
fn tileset_draw_one_from_single_color() {
    let mut bag = TileSet::new();
    bag.add_tiles(Tile::White, 2);
    let mut rng = RandomSource::from_seed(5);
    let t = bag.draw_one(&mut rng);
    assert_eq!(t, Tile::White);
    assert_eq!(bag.len(), 1);
}

#[test]
fn wall_layout_is_cyclic() {
    // top row of the fixed layout
    assert_eq!(wall_color(0, 0), Tile::Azul);
    assert_eq!(wall_color(0, 1), Tile::Yellow);
    assert_eq!(wall_color(0, 2), Tile::Red);
    assert_eq!(wall_color(0, 3), Tile::Black);
    assert_eq!(wall_color(0, 4), Tile::White);
    // each row shifts one step to the right
    assert_eq!(wall_color(1, 0), Tile::White);
    assert_eq!(wall_color(1, 1), Tile::Azul);
    assert_eq!(wall_color(2, 0), Tile::Black);
    assert_eq!(wall_color(4, 4), Tile::Azul);
    // the column lookup inverts the layout
    for r in 0..5 {
        for c in 0..5 {
            assert_eq!(wall_column(r, wall_color(r, c)), c);
        }
    }
}

#[test]
fn wall_scoring_example() {
    // An otherwise-empty wall: a tile making a horizontal run of 3 with a
    // vertical run of 1 scores 3 + 1 - 1 = 3 points, no bonus.
    let mut wall = Wall::new();
    assert_eq!(wall.add_tile(0, wall_color(0, 0)), 1);
    assert_eq!(wall.add_tile(0, wall_color(0, 1)), 2);
    assert_eq!(wall.add_tile(0, wall_color(0, 2)), 3);
    assert_eq!(wall.len(), 3);
}

#[test]
fn wall_vertical_run_scores() {
    let mut wall = Wall::new();
    assert_eq!(wall.add_tile(0, wall_color(0, 2)), 1);
    assert_eq!(wall.add_tile(1, wall_color(1, 2)), 2);
    // (2,2) now has vertical run 3, horizontal run 1: 3 + 1 - 1 = 3
    assert_eq!(wall.add_tile(2, wall_color(2, 2)), 3);
}

#[test]
fn wall_row_completion_bonus() {
    let mut wall = Wall::new();
    assert_eq!(wall.add_tile(0, wall_color(0, 0)), 1);
    assert_eq!(wall.add_tile(0, wall_color(0, 1)), 2);
    assert_eq!(wall.add_tile(0, wall_color(0, 2)), 3);
    assert_eq!(wall.add_tile(0, wall_color(0, 3)), 4);
    // completing the row: run of 5 horizontally, 1 vertically, +2 bonus
    assert_eq!(wall.add_tile(0, wall_color(0, 4)), 5 + 1 - 1 + 2);
}

#[test]
fn wall_single_assignment_is_visible() {
    let mut wall = Wall::new();
    assert!(!wall.has_tile(3, Tile::Red));
    wall.add_tile(3, Tile::Red);
    assert!(wall.has_tile(3, Tile::Red));
    assert_eq!(wall.len(), 1);
}

#[test]
fn discard_penalty_table() {
    assert_eq!(discard_points(0), 0);
    assert_eq!(discard_points(1), 1);
    assert_eq!(discard_points(2), 2);
    assert_eq!(discard_points(3), 4);
    // the example: four discarded tiles cost 1 + 1 + 2 + 2 = 6 points
    assert_eq!(discard_points(4), 6);
    assert_eq!(discard_points(5), 8);
    assert_eq!(discard_points(6), 11);
    assert_eq!(discard_points(8), 17);
}

#[test]
fn maybe_place_rejects_wall_color() {
    let mut p = Player::new();
    p.wall.add_tile(0, Tile::Azul);
    // the wall already holds this color in row 0
    assert!(!p.maybe_place(Tile::Azul, 1, 0));
    // but another color is fine
    assert!(p.maybe_place(Tile::Red, 1, 0));
}

#[test]
fn maybe_place_rejects_other_color() {
    let mut p = Player::new();
    assert!(p.maybe_place(Tile::Black, 1, 2));
    // the row now holds black, so white is rejected
    assert!(!p.maybe_place(Tile::White, 1, 2));
    // more black is accepted
    assert!(p.maybe_place(Tile::Black, 1, 2));
    assert_eq!(p.rows[2], Some((Tile::Black, 2)));
}

#[test]
fn maybe_place_overflow_goes_to_discard() {
    // Discard-or-fit: every drafted tile lands in the row or the discard.
    let mut p = Player::new();
    assert!(p.maybe_place(Tile::Yellow, 5, 1));
    assert_eq!(p.rows[1], Some((Tile::Yellow, 2)));
    assert_eq!(p.discard.count(Tile::Yellow), 3);
    // row capacity is never exceeded
    for (i, row) in p.rows.iter().enumerate() {
        if let Some((_, n)) = row {
            assert!(*n <= i + 1);
        }
    }
}

#[test]
fn prepare_next_round_commits_and_penalizes() {
    let mut p = Player::new();
    p.points = 10;
    assert!(p.maybe_place(Tile::Azul, 3, 2));
    let mut tray = TileSet::new();
    p.prepare_next_round(&mut tray);
    // row 2 was full: one tile to the wall, two back to the tray
    assert_eq!(p.rows[2], None);
    assert!(p.wall.has_tile(2, Tile::Azul));
    assert_eq!(tray.count(Tile::Azul), 2);
    assert_eq!(p.points, 11);
    assert_eq!(p.discard.len(), 0);
}

#[test]
fn prepare_next_round_penalty_floors_at_zero() {
    // A player with 4 discarded tiles loses 1+1+2+2 = 6 points, floored at 0.
    let mut p = Player::new();
    p.points = 3;
    p.discard.add_tiles(Tile::Red, 4);
    let mut tray = TileSet::new();
    p.prepare_next_round(&mut tray);
    assert_eq!(p.points, 0);
    assert_eq!(tray.count(Tile::Red), 4);
    assert_eq!(p.discard.len(), 0);

    let mut q = Player::new();
    q.points = 10;
    q.discard.add_tiles(Tile::Red, 4);
    let mut tray2 = TileSet::new();
    q.prepare_next_round(&mut tray2);
    assert_eq!(q.points, 4);
}

#[test]
fn prepare_keeps_partial_rows() {
    let mut p = Player::new();
    assert!(p.maybe_place(Tile::White, 2, 3));
    let mut tray = TileSet::new();
    p.prepare_next_round(&mut tray);
    // row 3 holds 2 of 4: nothing committed
    assert_eq!(p.rows[3], Some((Tile::White, 2)));
    assert_eq!(tray.len(), 0);
    assert!(!p.wall.has_tile(3, Tile::White));
}
