//! A player: five staging rows, a wall, a discard pile and a point total.

use vstd::prelude::*;

use crate::grid::{grid_bonus_at, grid_cell, grid_of, grid_points_at, grid_set,
    lemma_grid_after_set, lemma_grid_bonus_at, lemma_grid_cell, lemma_grid_points_at};
use crate::tile::{Tile, TileSet};
use crate::wall::{spec_wall_column, Wall};

verus! {

/// The penalty for the `i`-th discarded tile (zero-based): 1, 1, 2, 2, 2,
/// then 3 for every further tile.
pub open spec fn slot_cost(i: int) -> int {
    if i < 2 {
        1
    } else if i < 5 {
        2
    } else {
        3
    }
}

/// The total penalty for `n` discarded tiles.
pub open spec fn spec_discard_points(n: int) -> int
    decreases n,
{
    if n <= 0 {
        0
    } else {
        spec_discard_points(n - 1) + slot_cost(n - 1)
    }
}

/// The penalty never decreases with the number of discarded tiles, and is at
/// most three points per tile.
pub proof fn lemma_discard_points_bounds(a: int, b: int)
    requires
        0 <= a <= b,
    ensures
        0 <= spec_discard_points(a) <= spec_discard_points(b) <= 3 * b,
    decreases b,
{
    if b > 0 {
        if a == b {
            lemma_discard_points_bounds(a - 1, b - 1);
        } else {
            lemma_discard_points_bounds(a, b - 1);
        }
    }
}

/// The total penalty for `count` discarded tiles.
pub fn discard_points(count: usize) -> (r: usize)
    requires
        spec_discard_points(count as int) <= usize::MAX,
    ensures
        r == spec_discard_points(count as int),
{
    let mut sum: usize = 0;
    for i in 0..count
        invariant
            sum == spec_discard_points(i as int),
            spec_discard_points(count as int) <= usize::MAX,
    {
        proof {
            lemma_discard_points_bounds(i + 1, count as int);
        }
        let cost: usize = if i < 2 {
            1
        } else if i < 5 {
            2
        } else {
            3
        };
        sum = sum + cost;
    }
    sum
}

/// A player's board: staging rows 0 to 4 (row `i` holds at most `i + 1` tiles
/// of a single color), the scoring wall, the discard pile and the point
/// total.
#[derive(Clone, Copy, Debug, PartialEq, Eq)]
pub struct Player {
    pub rows: [Option<(Tile, usize)>; 5],
    pub points: usize,
    pub wall: Wall,
    pub discard: TileSet,
}

impl Player {
    /// The number of tiles staged in row `i`.
    pub open spec fn row_fill(self, i: int) -> int {
        match self.rows[i] {
            Some((t, n)) => n as int,
            None => 0,
        }
    }

    /// Whether staging row `i` is filled to its capacity of `i + 1` tiles.
    pub open spec fn is_full_row(self, i: int) -> bool {
        self.rows[i] is Some && self.row_fill(i) == i + 1
    }

    /// The number of tiles staged in the first `k` rows.
    pub open spec fn staged_upto(self, k: int) -> int
        decreases k,
    {
        if k <= 0 {
            0
        } else {
            self.staged_upto(k - 1) + self.row_fill(k - 1)
        }
    }

    /// The number of tiles staged in all five rows.
    pub open spec fn staged_total(self) -> int {
        self.staged_upto(5)
    }

    /// The number of tiles the player holds: staged, on the wall, and
    /// discarded.
    pub open spec fn tile_total(self) -> int {
        self.staged_total() + self.wall.total() + self.discard.total()
    }

    /// Row `i` is well-formed: an occupied row holds between one tile and its
    /// capacity, and its color's wall cell in that row is still free.
    pub open spec fn row_ok(self, i: int) -> bool {
        match self.rows[i] {
            None => true,
            Some((t, n)) => 1 <= n <= i + 1 && !self.wall.cell(i, spec_wall_column(i, t)),
        }
    }

    /// The player invariant: every staging row is well-formed. In particular
    /// no row ever holds more than `row index + 1` tiles.
    pub open spec fn wf(self) -> bool {
        forall|i: int| 0 <= i < 5 ==> self.row_ok(i)
    }


    /// The number of staging rows among the first `k` that accept `tile`.
    pub open spec fn accepts_upto(self, tile: Tile, k: int) -> int
        decreases k,
    {
        if k <= 0 {
            0
        } else {
            self.accepts_upto(tile, k - 1) + if self.accepts(tile, k - 1) {
                1int
            } else {
                0int
            }
        }
    }

    /// How many successor states drafting `tile` to this player produces:
    /// one per accepting row, or a single forced discard when no row
    /// accepts.
    pub open spec fn placements_of(self, tile: Tile) -> int {
        if self.accepts_upto(tile, 5) == 0 {
            1
        } else {
            self.accepts_upto(tile, 5)
        }
    }

    /// Accepting-row counts lie between zero and the rows considered.
    pub proof fn lemma_accepts_bounds(self, tile: Tile, k: int)
        requires
            0 <= k,
        ensures
            0 <= self.accepts_upto(tile, k) <= k,
        decreases k,
    {
        if k > 0 {
            self.lemma_accepts_bounds(tile, k - 1);
        }
    }

    /// Whether row `row` can accept tiles of color `tile`: the row's wall
    /// cell for that color is still free, and the row is either empty or
    /// already holds that color.
    pub open spec fn accepts(self, tile: Tile, row: int) -> bool {
        &&& !self.wall.cell(row, spec_wall_column(row, tile))
        &&& match self.rows[row] {
            None => true,
            Some((t, n)) => t == tile,
        }
    }

    /// A fresh player: empty rows, empty wall, empty discard, zero points.
    pub fn new() -> (p: Player)
        ensures
            forall|i: int| 0 <= i < 5 ==> p.rows[i] is None,
            forall|r: int, c: int| 0 <= r < 5 && 0 <= c < 5 ==> !p.wall.cell(r, c),
            forall|t: Tile| p.discard.spec_count(t) == 0,
            p.points == 0,
            p.wf(),
            p.tile_total() == 0,
    {
        let p = Player { rows: [None; 5], points: 0, wall: Wall::new(), discard: TileSet::new() };
        proof {
            p.lemma_staged_empty(5);
        }
        p
    }

    /// A player with empty staging rows stages no tiles.
    pub proof fn lemma_staged_empty(self, k: int)
        requires
            0 <= k <= 5,
            forall|i: int| 0 <= i < k ==> self.rows[i] is None,
        ensures
            self.staged_upto(k) == 0,
        decreases k,
    {
        if k > 0 {
            self.lemma_staged_empty(k - 1);
        }
    }

    /// Two players whose first `k` rows agree stage the same counts there.
    pub proof fn lemma_staged_upto_parts(self, other: Player, k: int)
        requires
            forall|i: int| 0 <= i < k ==> self.rows[i] == other.rows[i],
            0 <= k <= 5,
        ensures
            self.staged_upto(k) == other.staged_upto(k),
        decreases k,
    {
        if k > 0 {
            self.lemma_staged_upto_parts(other, k - 1);
        }
    }

    /// Prefix sums of staged tiles are monotone and non-negative.
    pub proof fn lemma_staged_nonneg(self, k: int, j: int)
        requires
            0 <= j <= k,
        ensures
            0 <= self.staged_upto(j) <= self.staged_upto(k),
        decreases k,
    {
        if k > 0 {
            if j == k {
                self.lemma_staged_nonneg(k - 1, k - 1);
            } else {
                self.lemma_staged_nonneg(k - 1, j);
            }
        }
    }

    /// Updating one row changes the staged count by the fill difference.
    pub proof fn lemma_staged_update(self, other: Player, row: int, k: int)
        requires
            0 <= row < 5,
            k <= 5,
            forall|i: int| 0 <= i < 5 && i != row ==> self.rows[i] == other.rows[i],
        ensures
            other.staged_upto(k) == self.staged_upto(k) + if row < k {
                other.row_fill(row) - self.row_fill(row)
            } else {
                0
            },
        decreases k,
    {
        if k > 0 {
            self.lemma_staged_update(other, row, k - 1);
        }
    }


    /// Wall single-assignment law: in a well-formed player, the wall cell a
    /// staged row will commit to is still free. Together with the placement
    /// contract — `Wall::add_tile` demands a free cell and occupies only
    /// that cell, and occupied cells never clear — no wall cell is ever set
    /// more than once across a game.
    pub proof fn lemma_staged_target_free(self, i: int)
        requires
            self.wf(),
            0 <= i < 5,
            self.rows[i] is Some,
        ensures
            !self.wall.cell(i, spec_wall_column(i, self.row_tile(i))),
    {
        assert(self.row_ok(i));
    }

    /// Tries to stage `count` tiles of color `tile` in row `row_index`.
    /// Returns false exactly when the row cannot take this color at all: the
    /// wall already holds that color in this row, or the row is occupied by a
    /// different color. Otherwise the row fills up to its remaining capacity
    /// and the overflow goes to the discard pile, so every drafted tile lands
    /// either in the row or in the discard.
    pub fn maybe_place(&mut self, tile: Tile, count: usize, row_index: usize) -> (placed: bool)
        requires
            row_index < 5,
            count >= 1,
            old(self).wf(),
            old(self).discard.spec_count(tile) + count <= usize::MAX,
        ensures
            placed == old(self).accepts(tile, row_index as int),
            !placed ==> *final(self) == *old(self),
            final(self).wf(),
            final(self).wall == old(self).wall,
            final(self).points == old(self).points,
            placed ==> ({
                let row = row_index as int;
                let space = row + 1 - old(self).row_fill(row);
                let fitted = if count <= space {
                    count as int
                } else {
                    space
                };
                &&& final(self).rows[row] == Some(
                    (tile, (old(self).row_fill(row) + fitted) as usize),
                )
                &&& forall|j: int| 0 <= j < 5 && j != row ==> final(self).rows[j] == old(
                    self,
                ).rows[j]
                &&& final(self).discard.spec_count(tile) == old(self).discard.spec_count(tile) + (
                count - fitted)
                &&& forall|u: Tile|
                    u != tile ==> final(self).discard.spec_count(u) == old(self).discard.spec_count(
                        u,
                    )
                &&& final(self).tile_total() == old(self).tile_total() + count
            }),
    {
        let ghost before = *self;
        if self.wall.has_tile(row_index, tile) {
            return false;
        }
        let row_size = row_index + 1;
        match self.rows[row_index] {
            Some((current_tile, current_count)) => {
                if current_tile != tile {
                    // another color is staged here - this row cannot take the tiles
                    return false;
                }
                assert(before.row_ok(row_index as int));
                let space_left = row_size - current_count;
                let discard_count = if count > space_left {
                    count - space_left
                } else {
                    0
                };
                self.rows[row_index] = Some((tile, current_count + (count - discard_count)));
                self.discard.add_tiles(tile, discard_count);
                proof {
                    before.lemma_staged_update(*self, row_index as int, 5);
                    assert forall|j: int| 0 <= j < 5 implies self.row_ok(j) by {
                        assert(before.row_ok(j));
                    }
                }
                true
            },
            None => {
                let space_left = row_size;
                let discard_count = if count > space_left {
                    count - space_left
                } else {
                    0
                };
                self.rows[row_index] = Some((tile, count - discard_count));
                self.discard.add_tiles(tile, discard_count);
                proof {
                    before.lemma_staged_update(*self, row_index as int, 5);
                    assert forall|j: int| 0 <= j < 5 implies self.row_ok(j) by {
                        assert(before.row_ok(j));
                    }
                }
                true
            },
        }
    }


    /// The color staged in row `i` (meaningful only for occupied rows).
    pub open spec fn row_tile(self, i: int) -> Tile {
        match self.rows[i] {
            Some((t, n)) => t,
            None => arbitrary(),
        }
    }

    /// The wall grid after committing the full rows among the first `k`
    /// staging rows, in row order.
    pub open spec fn commit_grid(self, k: int) -> Seq<Seq<bool>>
        decreases k,
    {
        if k <= 0 {
            grid_of(self.wall)
        } else {
            let g = self.commit_grid(k - 1);
            if self.is_full_row(k - 1) {
                grid_set(g, k - 1, spec_wall_column(k - 1, self.row_tile(k - 1)))
            } else {
                g
            }
        }
    }

    /// The point total after committing the full rows among the first `k`
    /// staging rows: each commit scores runs and bonuses against the wall as
    /// it stands after that commit, and each addition saturates at the
    /// largest representable total.
    pub open spec fn commit_points(self, k: int) -> int
        decreases k,
    {
        if k <= 0 {
            self.points as int
        } else {
            let prev = self.commit_points(k - 1);
            if self.is_full_row(k - 1) {
                let g2 = self.commit_grid(k);
                let col = spec_wall_column(k - 1, self.row_tile(k - 1));
                let s = prev + grid_points_at(g2, col, k - 1) + grid_bonus_at(g2, col, k - 1);
                if s <= usize::MAX {
                    s
                } else {
                    usize::MAX as int
                }
            } else {
                prev
            }
        }
    }

    /// The tray contents after the full rows among the first `k` staging rows
    /// have returned their surplus: a committed row `i` held `i + 1` tiles,
    /// one of which went to the wall, so `i` go back to the tray.
    pub open spec fn commit_tray(self, tray: TileSet, k: int) -> TileSet
        decreases k,
    {
        if k <= 0 {
            tray
        } else {
            let t0 = self.commit_tray(tray, k - 1);
            if self.is_full_row(k - 1) {
                t0.with_added(self.row_tile(k - 1), k - 1)
            } else {
                t0
            }
        }
    }

    /// The tiles that round-end processing returns to the tray from the
    /// first `k` staging rows: a committed row of rank `i` held `i + 1`
    /// tiles, one of which goes to the wall, so `i` go back.
    pub open spec fn returns_upto(self, k: int) -> int
        decreases k,
    {
        if k <= 0 {
            0
        } else {
            self.returns_upto(k - 1) + if self.is_full_row(k - 1) {
                k - 1
            } else {
                0int
            }
        }
    }

    /// The tiles that round-end processing returns to the tray from all
    /// five staging rows.
    pub open spec fn spec_row_returns(self) -> int {
        self.returns_upto(5)
    }

    /// Cells of the committed grid: a cell is occupied after the commits
    /// among the first `k` rows exactly when it was occupied before, or its
    /// row is a full staging row of rank below `k` and the cell is the one
    /// the row's color maps to.
    pub proof fn lemma_commit_grid_cells(self, k: int, r: int, c: int)
        requires
            0 <= k <= 5,
            0 <= r < 5,
            0 <= c < 5,
        ensures
            grid_cell(self.commit_grid(k), r, c) == (self.wall.cell(r, c) || (r < k
                && self.is_full_row(r) && c == spec_wall_column(r, self.row_tile(r)))),
        decreases k,
    {
        if k == 0 {
            lemma_grid_cell(self.wall, r, c);
        } else {
            self.lemma_commit_grid_len(k - 1);
            self.lemma_commit_grid_cells(k - 1, r, c);
        }
    }

    /// The committed grid keeps the 5 by 5 shape.
    pub proof fn lemma_commit_grid_len(self, k: int)
        requires
            0 <= k <= 5,
        ensures
            self.commit_grid(k).len() == 5,
            forall|r: int| 0 <= r < 5 ==> #[trigger] self.commit_grid(k)[r].len() == 5,
        decreases k,
    {
        if k > 0 {
            self.lemma_commit_grid_len(k - 1);
        }
    }

    /// Round-end processing: every staging row at full capacity commits one
    /// tile to the wall (scoring it) and returns the rest to the tray, then
    /// the discard penalty is subtracted from the points (never below zero)
    /// and the discard pile is moved into the tray.
    pub fn prepare_next_round(&mut self, tray: &mut TileSet)
        requires
            old(self).wf(),
            old(tray).total() + old(self).tile_total() <= usize::MAX,
            spec_discard_points(old(self).discard.total()) <= usize::MAX,
        ensures
            final(self).wf(),
            forall|i: int| 0 <= i < 5 && old(self).is_full_row(i) ==> final(self).rows[i] is None,
            forall|i: int|
                0 <= i < 5 && !old(self).is_full_row(i) ==> final(self).rows[i] == old(
                    self,
                ).rows[i],
            grid_of(final(self).wall) == old(self).commit_grid(5),
            forall|r: int, c: int|
                0 <= r < 5 && 0 <= c < 5 ==> final(self).wall.cell(r, c) == (old(self).wall.cell(
                    r,
                    c,
                ) || (old(self).is_full_row(r) && c == spec_wall_column(r, old(self).row_tile(r)))),
            final(self).points == ({
                let scored = old(self).commit_points(5);
                let pen = spec_discard_points(old(self).discard.total());
                if scored >= pen {
                    scored - pen
                } else {
                    0
                }
            }),
            final(self).discard.total() == 0,
            forall|t: Tile|
                final(tray).spec_count(t) == old(self).commit_tray(*old(tray), 5).spec_count(t)
                    + old(self).discard.spec_count(t),
            final(self).tile_total() + final(tray).total() == old(self).tile_total() + old(
                tray,
            ).total(),
            final(tray).total() == old(tray).total() + old(self).spec_row_returns() + old(
                self,
            ).discard.total(),
            final(self).points <= old(self).commit_points(5),
    {
        let ghost p0 = *self;
        for i in 0..5usize
            invariant
                p0.wf(),
                self.discard == p0.discard,
                forall|j: int| i <= j < 5 ==> self.rows[j] == p0.rows[j],
                forall|j: int| 0 <= j < i && p0.is_full_row(j) ==> self.rows[j] is None,
                forall|j: int| 0 <= j < i && !p0.is_full_row(j) ==> self.rows[j] == p0.rows[j],
                grid_of(self.wall) == p0.commit_grid(i as int),
                self.points == p0.commit_points(i as int),
                self.tile_total() + tray.total() == p0.tile_total() + old(tray).total(),
                p0.tile_total() + old(tray).total() <= usize::MAX,
                tray.total() == old(tray).total() + p0.returns_upto(i as int),
                *tray == p0.commit_tray(*old(tray), i as int),
        {
            let ghost self_pre = *self;
            match self.rows[i] {
                Some((t, cnt)) => {
                    if cnt == i + 1 {
                        proof {
                            assert(p0.rows[i as int] == self_pre.rows[i as int]);
                            assert(p0.is_full_row(i as int));
                            assert(t == p0.row_tile(i as int));
                            assert(p0.row_ok(i as int));
                            // the target cell is still free on the current wall
                            p0.lemma_commit_grid_cells(
                                i as int,
                                i as int,
                                spec_wall_column(i as int, t),
                            );
                            lemma_grid_cell(self_pre.wall, i as int, spec_wall_column(i as int, t));
                            assert(!self_pre.wall.cell(i as int, spec_wall_column(i as int, t)));
                            // bounds for the tray transfer
                            self_pre.lemma_staged_nonneg(5, i as int + 1);
                            self_pre.lemma_staged_nonneg(i as int + 1, i as int);
                            self_pre.wall.lemma_count_bounds();
                            assert(self_pre.row_fill(i as int) == cnt);
                            assert(cnt <= self_pre.staged_total());
                            assert(tray.spec_count(t) <= tray.total());
                            assert(tray.spec_count(t) + (cnt - 1) <= usize::MAX);
                        }
                        let ghost wall_pre = self.wall;
                        let pts = self.wall.add_tile(i, t);
                        proof {
                            lemma_grid_after_set(
                                wall_pre,
                                self.wall,
                                i as int,
                                spec_wall_column(i as int, t),
                            );
                            lemma_grid_points_at(self.wall, spec_wall_column(i as int, t), i as int);
                            lemma_grid_bonus_at(self.wall, spec_wall_column(i as int, t), i as int);
                            assert(grid_of(self.wall) == p0.commit_grid(i as int + 1));
                        }
                        self.points = self.points.saturating_add(pts);
                        tray.add_tiles(t, cnt - 1);
                        self.rows[i] = None;
                        proof {
                            self_pre.lemma_staged_update(*self, i as int, 5);
                            assert(*tray == p0.commit_tray(*old(tray), i as int + 1));
                            assert(self.points == p0.commit_points(i as int + 1));
                            assert(p0.returns_upto(i as int + 1) == p0.returns_upto(i as int)
                                + i);
                        }
                    } else {
                        proof {
                            assert(!p0.is_full_row(i as int));
                        }
                    }
                },
                None => {
                    proof {
                        assert(!p0.is_full_row(i as int));
                    }
                },
            }
        }
        let ghost self_exit = *self;
        proof {
            assert(grid_of(self.wall) == p0.commit_grid(5));
            self.lemma_staged_nonneg(5, 0);
            self.wall.lemma_count_bounds();
        }
        let pen = discard_points(self.discard.len());
        if self.points >= pen {
            self.points = self.points - pen;
        } else {
            self.points = 0;
        }
        let ghost self_mid = *self;
        tray.extend(self.discard);
        self.discard = TileSet::new();
        proof {
            self_exit.lemma_tile_total_frame(self_mid);
            self_mid.lemma_staged_upto_parts(*self, 5);
            assert(self.tile_total() == self_mid.tile_total() - self_mid.discard.total());
            // final wall cells, stated over the player as it entered the round end
            assert forall|r: int, c: int| 0 <= r < 5 && 0 <= c < 5 implies self.wall.cell(r, c)
                == (old(self).wall.cell(r, c) || (old(self).is_full_row(r)
                && c == spec_wall_column(r, old(self).row_tile(r)))) by {
                p0.lemma_commit_grid_cells(5, r, c);
                lemma_grid_cell(self.wall, r, c);
                assert(grid_cell(grid_of(self.wall), r, c) == grid_cell(p0.commit_grid(5), r, c));
            }
            // the rows that remain cannot collide with the new wall cells
            assert forall|j: int| 0 <= j < 5 implies self.row_ok(j) by {
                assert(p0.row_ok(j));
                if self.rows[j] is Some {
                    assert(!p0.is_full_row(j));
                    assert(self.rows[j] == p0.rows[j]);
                }
            }
        }
    }

    /// Two players with the same rows, wall and discard hold the same number
    /// of tiles, whatever their point totals.
    pub proof fn lemma_tile_total_frame(self, other: Player)
        requires
            forall|i: int| 0 <= i < 5 ==> self.rows[i] == other.rows[i],
            self.wall == other.wall,
            self.discard == other.discard,
        ensures
            self.tile_total() == other.tile_total(),
    {
        self.lemma_staged_upto_parts(other, 5);
    }

    /// The number of tiles the player holds across rows, wall and discard.
    pub fn tile_count(&self) -> (n: usize)
        requires
            self.tile_total() <= usize::MAX,
        ensures
            n == self.tile_total(),
    {
        proof {
            self.lemma_staged_nonneg(5, 0);
            self.wall.lemma_count_bounds();
        }
        let mut staged: usize = 0;
        for i in 0..5usize
            invariant
                staged == self.staged_upto(i as int),
                self.tile_total() <= usize::MAX,
        {
            proof {
                self.lemma_staged_nonneg(5, i + 1);
                self.wall.lemma_count_bounds();
            }
            match self.rows[i] {
                Some((_, c)) => {
                    staged = staged + c;
                },
                None => {},
            }
        }
        staged + self.wall.len() + self.discard.len()
    }
}

} // verus!

