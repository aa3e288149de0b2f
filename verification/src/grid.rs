//! A mathematical snapshot of a wall's occupancy grid.
//!
//! Round-end processing commits one tile per completed staging row, and each
//! commit scores against the wall as it stands after the previous commits.
//! Those intermediate walls only exist inside the computation, so the
//! specification of round-end processing describes them as values of
//! `Seq<Seq<bool>>`. This module defines the layout-independent occupancy
//! functions over such grids and proves that they agree with the functions
//! `Wall` states about itself.

use vstd::prelude::*;

use crate::wall::Wall;

verus! {

/// The grid snapshot of a wall.
pub open spec fn grid_of(w: Wall) -> Seq<Seq<bool>> {
    Seq::new(5, |r: int| Seq::new(5, |c: int| w.rows[r][c]))
}

/// Whether cell (`r`, `c`) of the grid is occupied (false outside the grid).
pub open spec fn grid_cell(g: Seq<Seq<bool>>, r: int, c: int) -> bool {
    0 <= r < 5 && 0 <= c < 5 && g[r][c]
}

/// The grid with cell (`r`, `c`) occupied.
pub open spec fn grid_set(g: Seq<Seq<bool>>, r: int, c: int) -> Seq<Seq<bool>> {
    g.update(r, g[r].update(c, true))
}

/// The length of the contiguous occupied run from (`r`, `c`) rightwards.
pub open spec fn grid_run_right(g: Seq<Seq<bool>>, r: int, c: int) -> int
    decreases 5 - c,
{
    if grid_cell(g, r, c) {
        1 + grid_run_right(g, r, c + 1)
    } else {
        0
    }
}

/// The length of the contiguous occupied run from (`r`, `c`) leftwards.
pub open spec fn grid_run_left(g: Seq<Seq<bool>>, r: int, c: int) -> int
    decreases c + 1,
{
    if grid_cell(g, r, c) {
        1 + grid_run_left(g, r, c - 1)
    } else {
        0
    }
}

/// The length of the contiguous occupied run from (`r`, `c`) downwards.
pub open spec fn grid_run_down(g: Seq<Seq<bool>>, r: int, c: int) -> int
    decreases 5 - r,
{
    if grid_cell(g, r, c) {
        1 + grid_run_down(g, r + 1, c)
    } else {
        0
    }
}

/// The length of the contiguous occupied run from (`r`, `c`) upwards.
pub open spec fn grid_run_up(g: Seq<Seq<bool>>, r: int, c: int) -> int
    decreases r + 1,
{
    if grid_cell(g, r, c) {
        1 + grid_run_up(g, r - 1, c)
    } else {
        0
    }
}

/// The run score for the occupied cell at column `c` of row `r`.
pub open spec fn grid_points_at(g: Seq<Seq<bool>>, c: int, r: int) -> int {
    grid_run_right(g, r, c) + grid_run_left(g, r, c) + grid_run_up(g, r, c) + grid_run_down(
        g,
        r,
        c,
    ) - 3
}

/// Whether row `r` of the grid is fully occupied.
pub open spec fn grid_row_full(g: Seq<Seq<bool>>, r: int) -> bool {
    forall|c: int| 0 <= c < 5 ==> grid_cell(g, r, c)
}

/// Whether column `c` of the grid is fully occupied.
pub open spec fn grid_col_full(g: Seq<Seq<bool>>, c: int) -> bool {
    forall|r: int| 0 <= r < 5 ==> grid_cell(g, r, c)
}

/// The bonus score for the cell at column `c` of row `r`.
pub open spec fn grid_bonus_at(g: Seq<Seq<bool>>, c: int, r: int) -> int {
    (if grid_row_full(g, r) {
        2int
    } else {
        0int
    }) + (if grid_col_full(g, c) {
        7int
    } else {
        0int
    })
}

/// Grid cells agree with wall cells.
pub proof fn lemma_grid_cell(w: Wall, r: int, c: int)
    ensures
        grid_cell(grid_of(w), r, c) == (0 <= r < 5 && 0 <= c < 5 && w.cell(r, c)),
{
}

/// The grid runs of a wall's snapshot agree with the wall's runs.
pub proof fn lemma_grid_run_right(w: Wall, r: int, c: int)
    ensures
        grid_run_right(grid_of(w), r, c) == w.run_right(r, c),
    decreases 5 - c,
{
    lemma_grid_cell(w, r, c);
    if grid_cell(grid_of(w), r, c) {
        lemma_grid_run_right(w, r, c + 1);
    }
}

pub proof fn lemma_grid_run_left(w: Wall, r: int, c: int)
    ensures
        grid_run_left(grid_of(w), r, c) == w.run_left(r, c),
    decreases c + 1,
{
    lemma_grid_cell(w, r, c);
    if grid_cell(grid_of(w), r, c) {
        lemma_grid_run_left(w, r, c - 1);
    }
}

pub proof fn lemma_grid_run_down(w: Wall, r: int, c: int)
    ensures
        grid_run_down(grid_of(w), r, c) == w.run_down(r, c),
    decreases 5 - r,
{
    lemma_grid_cell(w, r, c);
    if grid_cell(grid_of(w), r, c) {
        lemma_grid_run_down(w, r + 1, c);
    }
}

pub proof fn lemma_grid_run_up(w: Wall, r: int, c: int)
    ensures
        grid_run_up(grid_of(w), r, c) == w.run_up(r, c),
    decreases r + 1,
{
    lemma_grid_cell(w, r, c);
    if grid_cell(grid_of(w), r, c) {
        lemma_grid_run_up(w, r - 1, c);
    }
}

/// The grid scoring of a wall's snapshot agrees with the wall's scoring.
pub proof fn lemma_grid_points_at(w: Wall, c: int, r: int)
    ensures
        grid_points_at(grid_of(w), c, r) == w.spec_points_at(c, r),
{
    lemma_grid_run_right(w, r, c);
    lemma_grid_run_left(w, r, c);
    lemma_grid_run_down(w, r, c);
    lemma_grid_run_up(w, r, c);
}

pub proof fn lemma_grid_bonus_at(w: Wall, c: int, r: int)
    requires
        0 <= r < 5,
        0 <= c < 5,
    ensures
        grid_bonus_at(grid_of(w), c, r) == w.spec_bonus_at(c, r),
{
    let g = grid_of(w);
    if grid_row_full(g, r) {
        assert forall|j: int| 0 <= j < 5 implies w.cell(r, j) by {
            assert(grid_cell(g, r, j));
        }
    } else if w.row_full(r) {
        assert forall|j: int| 0 <= j < 5 implies grid_cell(g, r, j) by {
            assert(w.cell(r, j));
        }
    }
    if grid_col_full(g, c) {
        assert forall|i: int| 0 <= i < 5 implies w.cell(i, c) by {
            assert(grid_cell(g, i, c));
        }
    } else if w.col_full(c) {
        assert forall|i: int| 0 <= i < 5 implies grid_cell(g, i, c) by {
            assert(w.cell(i, c));
        }
    }
    assert(grid_row_full(g, r) == w.row_full(r));
    assert(grid_col_full(g, c) == w.col_full(c));
}

/// Setting one cell of a wall takes its snapshot to the set snapshot.
pub proof fn lemma_grid_after_set(w: Wall, w2: Wall, r: int, c: int)
    requires
        0 <= r < 5,
        0 <= c < 5,
        w2.cell(r, c),
        forall|i: int, j: int|
            0 <= i < 5 && 0 <= j < 5 && !(i == r && j == c) ==> w2.cell(i, j) == w.cell(i, j),
    ensures
        grid_of(w2) == grid_set(grid_of(w), r, c),
{
    let g = grid_of(w);
    let g2 = grid_of(w2);
    let gs = grid_set(g, r, c);
    assert forall|i: int| 0 <= i < 5 implies g2[i] =~= gs[i] by {
        assert forall|j: int| 0 <= j < 5 implies g2[i][j] == gs[i][j] by {
            if i == r && j == c {
                assert(w2.cell(r, c));
            } else {
                assert(w2.cell(i, j) == w.cell(i, j));
            }
        }
    }
    assert(g2 =~~= gs);
}

} // verus!
