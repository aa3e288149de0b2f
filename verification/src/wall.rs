//! A player's 5x5 scoring wall.
//!
//! The wall has a fixed, non-player-specific color layout: every row and
//! every column is a cyclic permutation of the five colors. Placing a tile
//! scores the lengths of the contiguous horizontal and vertical runs through
//! the placed cell, plus bonus points for a completed row or column.

use vstd::prelude::*;

use crate::tile::Tile;

verus! {

/// The color order of the top row of the fixed layout.
pub open spec fn base_color(i: int) -> Tile {
    if i == 0 {
        Tile::Azul
    } else if i == 1 {
        Tile::Yellow
    } else if i == 2 {
        Tile::Red
    } else if i == 3 {
        Tile::Black
    } else {
        Tile::White
    }
}

/// The position of a color in the top row of the fixed layout.
pub open spec fn base_index(t: Tile) -> int {
    match t {
        Tile::Azul => 0,
        Tile::Yellow => 1,
        Tile::Red => 2,
        Tile::Black => 3,
        Tile::White => 4,
    }
}

/// The fixed color held by cell (`r`, `c`): each row shifts the top row one
/// step to the right.
pub open spec fn spec_wall_color(r: int, c: int) -> Tile {
    base_color((c - r + 5) % 5)
}

/// The unique column of row `r` whose fixed color is `t`.
pub open spec fn spec_wall_column(r: int, t: Tile) -> int {
    (base_index(t) + r) % 5
}

/// In every row, each color appears in exactly one column: `spec_wall_column`
/// inverts `spec_wall_color`.
pub proof fn lemma_wall_layout(r: int, c: int, t: Tile)
    requires
        0 <= r < 5,
        0 <= c < 5,
    ensures
        spec_wall_color(r, spec_wall_column(r, t)) == t,
        spec_wall_color(r, c) == t ==> c == spec_wall_column(r, t),
{
}

/// The fixed color held by cell (`r`, `c`) of the layout.
pub fn wall_color(r: usize, c: usize) -> (t: Tile)
    requires
        r < 5,
        c < 5,
    ensures
        t == spec_wall_color(r as int, c as int),
{
    let i = (c + 5 - r) % 5;
    if i == 0 {
        Tile::Azul
    } else if i == 1 {
        Tile::Yellow
    } else if i == 2 {
        Tile::Red
    } else if i == 3 {
        Tile::Black
    } else {
        Tile::White
    }
}

/// The column of row `r` whose fixed color is `tile`.
pub fn wall_column(r: usize, tile: Tile) -> (c: usize)
    requires
        r < 5,
    ensures
        c < 5,
        c == spec_wall_column(r as int, tile),
        spec_wall_color(r as int, c as int) == tile,
{
    let bi: usize = match tile {
        Tile::Azul => 0,
        Tile::Yellow => 1,
        Tile::Red => 2,
        Tile::Black => 3,
        Tile::White => 4,
    };
    let c = (bi + r) % 5;
    proof {
        lemma_wall_layout(r as int, c as int, tile);
    }
    c
}

/// A 5x5 boolean occupancy grid over the fixed color layout.
#[derive(Clone, Copy, Debug, PartialEq, Eq)]
pub struct Wall {
    pub rows: [[bool; 5]; 5],
}

impl Wall {
    /// Whether cell (`r`, `c`) is occupied.
    pub open spec fn cell(self, r: int, c: int) -> bool {
        self.rows[r][c]
    }

    /// The number of occupied cells among the first `k` cells of row `r`.
    pub open spec fn row_count(self, r: int, k: int) -> int
        decreases k,
    {
        if k <= 0 {
            0
        } else {
            self.row_count(r, k - 1) + if self.cell(r, k - 1) {
                1int
            } else {
                0int
            }
        }
    }

    /// The number of occupied cells in the first `r` rows.
    pub open spec fn count_upto(self, r: int) -> int
        decreases r,
    {
        if r <= 0 {
            0
        } else {
            self.count_upto(r - 1) + self.row_count(r - 1, 5)
        }
    }

    /// The number of occupied cells of the wall.
    pub open spec fn total(self) -> int {
        self.count_upto(5)
    }

    /// The length of the contiguous occupied run from (`r`, `c`) rightwards.
    pub open spec fn run_right(self, r: int, c: int) -> int
        decreases 5 - c,
    {
        if 0 <= r < 5 && 0 <= c < 5 && self.cell(r, c) {
            1 + self.run_right(r, c + 1)
        } else {
            0
        }
    }

    /// The length of the contiguous occupied run from (`r`, `c`) leftwards.
    pub open spec fn run_left(self, r: int, c: int) -> int
        decreases c + 1,
    {
        if 0 <= r < 5 && 0 <= c < 5 && self.cell(r, c) {
            1 + self.run_left(r, c - 1)
        } else {
            0
        }
    }

    /// The length of the contiguous occupied run from (`r`, `c`) downwards.
    pub open spec fn run_down(self, r: int, c: int) -> int
        decreases 5 - r,
    {
        if 0 <= r < 5 && 0 <= c < 5 && self.cell(r, c) {
            1 + self.run_down(r + 1, c)
        } else {
            0
        }
    }

    /// The length of the contiguous occupied run from (`r`, `c`) upwards.
    pub open spec fn run_up(self, r: int, c: int) -> int
        decreases r + 1,
    {
        if 0 <= r < 5 && 0 <= c < 5 && self.cell(r, c) {
            1 + self.run_up(r - 1, c)
        } else {
            0
        }
    }

    /// The score for the occupied cell at column `c` of row `r`: the four
    /// directed runs all count the cell itself, so three of those counts are
    /// taken back; the net value is the horizontal run length plus the
    /// vertical run length minus one.
    pub open spec fn spec_points_at(self, c: int, r: int) -> int {
        self.run_right(r, c) + self.run_left(r, c) + self.run_up(r, c) + self.run_down(r, c) - 3
    }

    /// Whether row `r` is fully occupied.
    pub open spec fn row_full(self, r: int) -> bool {
        forall|c: int| 0 <= c < 5 ==> self.cell(r, c)
    }

    /// Whether column `c` is fully occupied.
    pub open spec fn col_full(self, c: int) -> bool {
        forall|r: int| 0 <= r < 5 ==> self.cell(r, c)
    }

    /// The bonus for the cell at column `c` of row `r`: two points for a
    /// completed row and seven for a completed column.
    pub open spec fn spec_bonus_at(self, c: int, r: int) -> int {
        (if self.row_full(r) {
            2int
        } else {
            0int
        }) + (if self.col_full(c) {
            7int
        } else {
            0int
        })
    }

    /// A row is full exactly when each of its five cells is occupied.
    pub proof fn lemma_row_full_cells(self, r: int)
        ensures
            self.row_full(r) == (self.cell(r, 0) && self.cell(r, 1) && self.cell(r, 2)
                && self.cell(r, 3) && self.cell(r, 4)),
    {
        if self.cell(r, 0) && self.cell(r, 1) && self.cell(r, 2) && self.cell(r, 3) && self.cell(
            r,
            4,
        ) {
            assert forall|c: int| 0 <= c < 5 implies self.cell(r, c) by {
                if c == 0 {
                } else if c == 1 {
                } else if c == 2 {
                } else if c == 3 {
                } else {
                }
            }
        }
    }

    /// A column is full exactly when each of its five cells is occupied.
    pub proof fn lemma_col_full_cells(self, c: int)
        ensures
            self.col_full(c) == (self.cell(0, c) && self.cell(1, c) && self.cell(2, c)
                && self.cell(3, c) && self.cell(4, c)),
    {
        if self.cell(0, c) && self.cell(1, c) && self.cell(2, c) && self.cell(3, c) && self.cell(
            4,
            c,
        ) {
            assert forall|r: int| 0 <= r < 5 implies self.cell(r, c) by {
                if r == 0 {
                } else if r == 1 {
                } else if r == 2 {
                } else if r == 3 {
                } else {
                }
            }
        }
    }

    /// An empty wall.
    pub fn new() -> (w: Wall)
        ensures
            forall|r: int, c: int| 0 <= r < 5 && 0 <= c < 5 ==> !w.cell(r, c),
            w.total() == 0,
    {
        let w = Wall { rows: [[false; 5]; 5] };
        proof {
            w.lemma_empty_count(5);
        }
        w
    }

    /// A wall with no occupied cell has occupancy count zero.
    proof fn lemma_empty_row_count(self, r: int, k: int)
        requires
            0 <= r < 5,
            0 <= k <= 5,
            forall|i: int, j: int| 0 <= i < 5 && 0 <= j < 5 ==> !self.cell(i, j),
        ensures
            self.row_count(r, k) == 0,
        decreases k,
    {
        if k > 0 {
            self.lemma_empty_row_count(r, k - 1);
        }
    }

    proof fn lemma_empty_count(self, upto: int)
        requires
            0 <= upto <= 5,
            forall|i: int, j: int| 0 <= i < 5 && 0 <= j < 5 ==> !self.cell(i, j),
        ensures
            self.count_upto(upto) == 0,
        decreases upto,
    {
        if upto > 0 {
            self.lemma_empty_count(upto - 1);
            self.lemma_empty_row_count(upto - 1, 5);
        }
    }

    /// The number of occupied cells.
    pub fn len(&self) -> (n: usize)
        ensures
            n == self.total(),
            n <= 25,
    {
        proof {
            self.lemma_count_bounds();
        }
        let mut n: usize = 0;
        for r in 0..5usize
            invariant
                n == self.count_upto(r as int),
                n <= 5 * r,
        {
            let mut m: usize = 0;
            for c in 0..5usize
                invariant
                    m == self.row_count(r as int, c as int),
                    m <= c,
                    r < 5,
            {
                if self.rows[r][c] {
                    m = m + 1;
                }
            }
            n = n + m;
        }
        n
    }

    /// Every partial count is between zero and the number of cells counted.
    pub proof fn lemma_count_bounds(self)
        ensures
            forall|r: int, k: int| 0 <= k ==> 0 <= #[trigger] self.row_count(r, k) <= k,
            forall|r: int| 0 <= r ==> 0 <= #[trigger] self.count_upto(r) <= 5 * r,
    {
        assert forall|r: int, k: int| 0 <= k implies 0 <= #[trigger] self.row_count(r, k) <= k by {
            self.lemma_row_count_bound(r, k);
        }
        assert forall|r: int| 0 <= r implies 0 <= #[trigger] self.count_upto(r) <= 5 * r by {
            self.lemma_count_upto_bound(r);
        }
    }

    proof fn lemma_row_count_bound(self, r: int, k: int)
        requires
            0 <= k,
        ensures
            0 <= self.row_count(r, k) <= k,
        decreases k,
    {
        if k > 0 {
            self.lemma_row_count_bound(r, k - 1);
        }
    }

    proof fn lemma_count_upto_bound(self, r: int)
        requires
            0 <= r,
        ensures
            0 <= self.count_upto(r) <= 5 * r,
        decreases r,
    {
        if r > 0 {
            self.lemma_count_upto_bound(r - 1);
            self.lemma_row_count_bound(r - 1, 5);
        }
    }

    /// Whether the cell of row `row_index` whose fixed color is `tile` is
    /// occupied.
    pub fn has_tile(&self, row_index: usize, tile: Tile) -> (r: bool)
        requires
            row_index < 5,
        ensures
            r == self.cell(row_index as int, spec_wall_column(row_index as int, tile)),
    {
        let c = wall_column(row_index, tile);
        self.rows[row_index][c]
    }

    /// The rightward run length through (`row`, `col`).
    pub fn count_right(&self, row: usize, col: usize) -> (n: usize)
        requires
            row < 5,
            col <= 5,
        ensures
            n == self.run_right(row as int, col as int),
            n <= 5 - col,
            col < 5 && self.cell(row as int, col as int) ==> n >= 1,
        decreases 5 - col,
    {
        if col < 5 && self.rows[row][col] {
            1 + self.count_right(row, col + 1)
        } else {
            0
        }
    }

    /// The leftward run length through (`row`, `col`).
    pub fn count_left(&self, row: usize, col: usize) -> (n: usize)
        requires
            row < 5,
            col < 5,
        ensures
            n == self.run_left(row as int, col as int),
            n <= col + 1,
            self.cell(row as int, col as int) ==> n >= 1,
        decreases col,
    {
        if self.rows[row][col] {
            if col == 0 {
                proof {
                    assert(self.run_left(row as int, -1) == 0);
                }
                1
            } else {
                1 + self.count_left(row, col - 1)
            }
        } else {
            0
        }
    }

    /// The downward run length through (`row`, `col`).
    pub fn count_down(&self, row: usize, col: usize) -> (n: usize)
        requires
            row <= 5,
            col < 5,
        ensures
            n == self.run_down(row as int, col as int),
            n <= 5 - row,
            row < 5 && self.cell(row as int, col as int) ==> n >= 1,
        decreases 5 - row,
    {
        if row < 5 && self.rows[row][col] {
            1 + self.count_down(row + 1, col)
        } else {
            0
        }
    }

    /// The upward run length through (`row`, `col`).
    pub fn count_up(&self, row: usize, col: usize) -> (n: usize)
        requires
            row < 5,
            col < 5,
        ensures
            n == self.run_up(row as int, col as int),
            n <= row + 1,
            self.cell(row as int, col as int) ==> n >= 1,
        decreases row,
    {
        if self.rows[row][col] {
            if row == 0 {
                proof {
                    assert(self.run_up(-1, col as int) == 0);
                }
                1
            } else {
                1 + self.count_up(row - 1, col)
            }
        } else {
            0
        }
    }

    /// The run score for the occupied cell at column `colum_index` of row
    /// `row_index`.
    pub fn points_at(&self, colum_index: usize, row_index: usize) -> (n: usize)
        requires
            colum_index < 5,
            row_index < 5,
            self.cell(row_index as int, colum_index as int),
        ensures
            n == self.spec_points_at(colum_index as int, row_index as int),
            1 <= n <= 9,
    {
        let right = self.count_right(row_index, colum_index);
        let left = self.count_left(row_index, colum_index);
        let up = self.count_up(row_index, colum_index);
        let down = self.count_down(row_index, colum_index);
        right + left + up + down - 3
    }

    /// The bonus score for the cell at column `colum_index` of row
    /// `row_index`.
    pub fn bonus_points_at(&self, colum_index: usize, row_index: usize) -> (n: usize)
        requires
            colum_index < 5,
            row_index < 5,
        ensures
            n == self.spec_bonus_at(colum_index as int, row_index as int),
            n <= 9,
    {
        let r = row_index;
        let c = colum_index;
        let row_done = self.rows[r][0] && self.rows[r][1] && self.rows[r][2] && self.rows[r][3]
            && self.rows[r][4];
        let col_done = self.rows[0][c] && self.rows[1][c] && self.rows[2][c] && self.rows[3][c]
            && self.rows[4][c];
        proof {
            self.lemma_row_full_cells(r as int);
            self.lemma_col_full_cells(c as int);
        }
        (if row_done {
            2
        } else {
            0
        }) + (if col_done {
            7
        } else {
            0
        })
    }

    /// Occupies the cell of row `row_index` whose fixed color is `tile` and
    /// returns the score of the placement. The cell must be free: a wall cell
    /// is set at most once per game.
    pub fn add_tile(&mut self, row_index: usize, tile: Tile) -> (points: usize)
        requires
            row_index < 5,
            !old(self).cell(row_index as int, spec_wall_column(row_index as int, tile)),
        ensures
            final(self).cell(row_index as int, spec_wall_column(row_index as int, tile)),
            forall|r: int, c: int|
                0 <= r < 5 && 0 <= c < 5 && !(r == row_index as int && c == spec_wall_column(
                    row_index as int,
                    tile,
                )) ==> final(self).cell(r, c) == old(self).cell(r, c),
            forall|r: int, c: int|
                0 <= r < 5 && 0 <= c < 5 && old(self).cell(r, c) ==> final(self).cell(r, c),
            final(self).total() == old(self).total() + 1,
            points == final(self).spec_points_at(
                spec_wall_column(row_index as int, tile),
                row_index as int,
            ) + final(self).spec_bonus_at(spec_wall_column(row_index as int, tile), row_index as int),
            1 <= points <= 18,
    {
        let ghost before = *self;
        let col = wall_column(row_index, tile);
        let mut row = self.rows[row_index];
        row[col] = true;
        self.rows[row_index] = row;
        proof {
            before.lemma_total_after_set(*self, row_index as int, col as int);
        }
        let p = self.points_at(col, row_index);
        let b = self.bonus_points_at(col, row_index);
        p + b
    }

    /// Setting one free cell raises the occupancy count by exactly one.
    proof fn lemma_total_after_set(self, after: Wall, r: int, c: int)
        requires
            0 <= r < 5,
            0 <= c < 5,
            !self.cell(r, c),
            after.cell(r, c),
            forall|i: int, j: int|
                0 <= i < 5 && 0 <= j < 5 && !(i == r && j == c) ==> after.cell(i, j) == self.cell(
                    i,
                    j,
                ),
        ensures
            after.total() == self.total() + 1,
    {
        self.lemma_count_after_set(after, r, c, 5);
    }

    proof fn lemma_row_count_after_set(self, after: Wall, r: int, c: int, row: int, k: int)
        requires
            0 <= r < 5,
            0 <= c < 5,
            0 <= k <= 5,
            0 <= row < 5,
            !self.cell(r, c),
            after.cell(r, c),
            forall|i: int, j: int|
                0 <= i < 5 && 0 <= j < 5 && !(i == r && j == c) ==> after.cell(i, j) == self.cell(
                    i,
                    j,
                ),
        ensures
            after.row_count(row, k) == self.row_count(row, k) + if row == r && c < k {
                1int
            } else {
                0int
            },
        decreases k,
    {
        if k > 0 {
            self.lemma_row_count_after_set(after, r, c, row, k - 1);
        }
    }

    proof fn lemma_count_after_set(self, after: Wall, r: int, c: int, upto: int)
        requires
            0 <= r < 5,
            0 <= c < 5,
            0 <= upto <= 5,
            !self.cell(r, c),
            after.cell(r, c),
            forall|i: int, j: int|
                0 <= i < 5 && 0 <= j < 5 && !(i == r && j == c) ==> after.cell(i, j) == self.cell(
                    i,
                    j,
                ),
        ensures
            after.count_upto(upto) == self.count_upto(upto) + if r < upto {
                1int
            } else {
                0int
            },
        decreases upto,
    {
        if upto > 0 {
            self.lemma_count_after_set(after, r, c, upto - 1);
            self.lemma_row_count_after_set(after, r, c, upto - 1, 5);
        }
    }
}

} // verus!

